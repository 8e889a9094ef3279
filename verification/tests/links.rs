use short::codec::{decode_link, encode_link};
use short::{LinkError, LinkManager};

#[test]
fn try_generation() {
    let mut lm = LinkManager::create("/tmp/short_store_try_generation").unwrap();

    let our_link = String::from("https://farts.google.com");

    let _ = lm.generate_link(our_link.as_str(), None);
    let _ = lm.generate_link(our_link.as_str(), None);

    let moooo = String::from("https://put.that.thang/away");
    let _ = lm.generate_link(moooo.as_str(), None);
}

#[test]
fn round_trip_returns_stored_record() {
    let mut lm = LinkManager::create("/tmp/short_store_round_trip").unwrap();
    let aliases = vec![String::from("my link"), String::from("x/y")];
    let link = lm
        .generate_link("https://example.com/a?b=c", Some(aliases))
        .unwrap();

    let resolved = lm.resolve_link(link.shortened_link().as_str()).unwrap();
    assert_eq!(resolved.identifier(), link.identifier());
    assert_eq!(resolved.original_link(), link.original_link());
    assert_eq!(resolved.shortened_link(), link.shortened_link());
    assert_eq!(resolved.aliases(), link.aliases());
}

#[test]
fn aliases_are_percent_encoded_in_order() {
    let mut lm = LinkManager::create("/tmp/short_store_alias_enc").unwrap();
    let aliases = vec![String::from("my link"), String::from("a/b c")];
    let link = lm
        .generate_link("https://example.com/", Some(aliases))
        .unwrap();

    let encoded = link.aliases().as_ref().unwrap();
    assert_eq!(encoded.len(), 2);
    assert_eq!(encoded[0], "my%20link");
    assert_eq!(encoded[1], "a%2Fb%20c");
}

#[test]
fn no_aliases_stay_absent() {
    let mut lm = LinkManager::create("/tmp/short_store_alias_none").unwrap();
    let link = lm.generate_link("https://example.com/", None).unwrap();
    assert!(link.aliases().is_none());
}

#[test]
fn identifiers_and_codes_are_pairwise_distinct() {
    let mut lm = LinkManager::create("/tmp/short_store_unique").unwrap();
    let mut ids: Vec<(u64, u64)> = Vec::new();
    let mut codes: Vec<String> = Vec::new();
    for _ in 0..100 {
        let l = lm.generate_link("https://example.com/page", None).unwrap();
        ids.push(l.identifier());
        codes.push(l.shortened_link().clone());
    }
    for i in 0..ids.len() {
        for j in (i + 1)..ids.len() {
            assert_ne!(ids[i], ids[j]);
            assert_ne!(codes[i], codes[j]);
        }
    }
}

#[test]
fn absent_code_is_not_found_and_never_a_decoding_error() {
    let lm = LinkManager::create("/tmp/short_store_absent").unwrap();
    let e = lm.resolve_link("never-inserted").unwrap_err();
    match e {
        LinkError::LinkNotFound(code) => assert_eq!(code, "never-inserted"),
        other => panic!("expected LinkNotFound, got {:?}", other),
    }
}

#[test]
fn invalid_url_is_rejected() {
    let mut lm = LinkManager::create("/tmp/short_store_invalid").unwrap();
    let e = lm.generate_link("not a url", None).unwrap_err();
    assert!(matches!(e, LinkError::InvalidLink));
}

#[test]
fn original_url_is_canonicalized() {
    let mut lm = LinkManager::create("/tmp/short_store_canon").unwrap();
    let link = lm.generate_link("HTTPS://Example.COM", None).unwrap();
    assert_eq!(link.original_link().as_str(), "https://example.com/");
}

#[test]
fn repeated_generation_keeps_both_records() {
    let mut lm = LinkManager::create("/tmp/short_store_two").unwrap();
    let a = lm.generate_link("https://example.com/one", None).unwrap();
    let b = lm.generate_link("https://example.com/one", None).unwrap();
    assert_ne!(a.shortened_link(), b.shortened_link());
    assert_ne!(a.identifier(), b.identifier());

    let ra = lm.resolve_link(a.shortened_link().as_str()).unwrap();
    let rb = lm.resolve_link(b.shortened_link().as_str()).unwrap();
    assert_eq!(ra.identifier(), a.identifier());
    assert_eq!(rb.identifier(), b.identifier());
}

#[test]
fn short_codes_are_fixed_length_base62() {
    let mut lm = LinkManager::create("/tmp/short_store_code_shape").unwrap();
    let link = lm.generate_link("https://example.com/shape", None).unwrap();
    let code = link.shortened_link();
    assert_eq!(code.len(), 8);
    assert!(code.bytes().all(|b| b.is_ascii_alphanumeric()));
}

#[test]
fn codec_round_trips_and_pins_the_layout() {
    let mut lm = LinkManager::create("/tmp/short_store_codec").unwrap();
    let link = lm
        .generate_link("https://example.com/z", Some(vec![String::from("n one")]))
        .unwrap();

    let bytes = encode_link(&link);
    let (hi, lo) = link.identifier();
    assert_eq!(&bytes[0..8], &lo.to_le_bytes());
    assert_eq!(&bytes[8..16], &hi.to_le_bytes());
    let url_len = u64::from_le_bytes(bytes[16..24].try_into().unwrap());
    assert_eq!(url_len as usize, link.original_link().len());

    let back = decode_link(&bytes).unwrap();
    assert_eq!(back.identifier(), link.identifier());
    assert_eq!(back.original_link(), link.original_link());
    assert_eq!(back.shortened_link(), link.shortened_link());
    assert_eq!(back.aliases(), link.aliases());
}

#[test]
fn codec_rejects_bytes_that_are_not_one_whole_encoding() {
    let mut lm = LinkManager::create("/tmp/short_store_codec_bad").unwrap();
    let link = lm.generate_link("https://example.com/y", None).unwrap();
    let bytes = encode_link(&link);

    assert!(decode_link(&vec![1u8, 2, 3]).is_none());

    let mut truncated = bytes.clone();
    truncated.pop();
    assert!(decode_link(&truncated).is_none());

    let mut extended = bytes.clone();
    extended.push(0);
    assert!(decode_link(&extended).is_none());
}

#[test]
fn unusable_location_fails_to_open() {
    let r = LinkManager::create("/dev/null/nested");
    assert!(matches!(r, Err(LinkError::StoreOpenFailure(_))));
}
