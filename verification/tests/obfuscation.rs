use event_obfuscator::pattern::extract;
use event_obfuscator::pattern::is_cef_index_file_name;
use event_obfuscator::rewrite::replace_all;
use event_obfuscator::rewrite::replace_event_names_with_hashes;
use event_obfuscator::table::fill_hash_map;
use event_obfuscator::table::get_value_or_digest_sha256;
use event_obfuscator::table::read_matches_and_insert_to_hash_map;
use event_obfuscator::table::EventHash;
use event_obfuscator::table::PseudonymTable;

fn b(s: &str) -> Vec<u8> {
    s.as_bytes().to_vec()
}

fn text_of(v: &[u8]) -> String {
    String::from_utf8(v.to_vec()).unwrap()
}

#[test]
fn test_fill_hash_map() {
    let client_content = r#"
            Some code with "client:event1:hejsan" and "client:event2:tjosan"
        "#;
    let server_content = r#"
            Some code with "server:event3" and "server:event4:hejsan"
        "#;
    let cef_content = r#"
            Some code with "server:event5" and "server:event6:hejsan"
        "#;

    let mut event_hashes = PseudonymTable::new();
    fill_hash_map(
        &b(client_content),
        &b(server_content),
        &b(cef_content),
        &mut event_hashes,
    );

    assert_eq!(event_hashes.len(), 6);
    let expected1 = sha256::digest("client:event1:hejsan").into_bytes();
    assert_eq!(event_hashes.get(&b("client:event1:hejsan")), Some(&expected1));
    let expected4 = sha256::digest("server:event4:hejsan").into_bytes();
    assert_eq!(event_hashes.get(&b("server:event4:hejsan")), Some(&expected4));
    let expected6 = sha256::digest("server:event6:hejsan").into_bytes();
    assert_eq!(event_hashes.get(&b("server:event6:hejsan")), Some(&expected6));
}

#[test]
fn test_replace_event_names_in_files_with_hashes() {
    let mut event_hashes = PseudonymTable::new();
    event_hashes.insert(b("client:event1"), b("hash1"));
    event_hashes.insert(b("server:event2"), b("hash2"));

    let test_data = r#"
            Some code with "client:event1" and "server:event2"
        "#;

    // The same table rewrites the content wherever it stands, as the driver
    // does for each of its target files.
    for _ in 0..2 {
        let content = replace_event_names_with_hashes(&event_hashes, &b(test_data));
        let content = text_of(&content);
        assert!(content.contains("hash1"));
        assert!(content.contains("hash2"));
    }
}

#[test]
fn extraction_example() {
    let input = r#"Some code with "client:event1:hejsan" and "client:event2:tjosan""#;
    let ids = extract(&b(input));
    assert_eq!(ids, vec![b("client:event1:hejsan"), b("client:event2:tjosan")]);
}

#[test]
fn extraction_keeps_duplicates_and_order() {
    let input = r#"a "server:x" b "client:y" c "server:x" d"#;
    let ids = extract(&b(input));
    assert_eq!(ids, vec![b("server:x"), b("client:y"), b("server:x")]);
}

#[test]
fn extraction_matches_do_not_overlap() {
    // The closing quote of a match is consumed: what follows it is not a
    // quoted identifier of its own.
    let input = r#"x"client:a"client:b"y"#;
    let ids = extract(&b(input));
    assert_eq!(ids, vec![b("client:a")]);
}

#[test]
fn extraction_ignores_identifiers_with_outside_characters() {
    let input = r#"with "client:a.b" and "clientless" and "server:ok-1_2:z""#;
    let ids = extract(&b(input));
    assert_eq!(ids, vec![b("server:ok-1_2:z")]);
}

#[test]
fn extraction_of_plain_text_is_empty() {
    let ids = extract(&b("no event names here, client or server."));
    assert_eq!(ids, Vec::<Vec<u8>>::new());
    let none = extract(&b(""));
    assert_eq!(none, Vec::<Vec<u8>>::new());
}

#[test]
fn pseudonym_is_deterministic() {
    // The same identifier, recorded into two independent tables, receives
    // the same pseudonym: the digest has no run-specific salt.
    let mut t1 = PseudonymTable::new();
    let mut t2 = PseudonymTable::new();
    let text = r#""client:login""#;
    fill_hash_map(&b(text), &b(""), &b(""), &mut t1);
    fill_hash_map(&b(""), &b(""), &b(text), &mut t2);
    let first = t1.get(&b("client:login")).unwrap().clone();
    let second = t2.get(&b("client:login")).unwrap().clone();
    assert_eq!(first, second);
    assert_eq!(first, sha256::digest("client:login").into_bytes());
}

#[test]
fn reinsertion_keeps_the_pseudonym() {
    let mut table = PseudonymTable::new();
    table.insert(b("client:login"), b("kept"));
    let matches = [vec![b("client:login")], vec![], vec![]];
    read_matches_and_insert_to_hash_map(matches, &mut table);
    assert_eq!(table.len(), 1);
    assert_eq!(table.get(&b("client:login")), Some(&b("kept")));
}

#[test]
fn event_hash_resolves_before_digesting() {
    let mut table = PseudonymTable::new();
    table.insert(b("client:known"), b("existing"));
    let known = EventHash::new(&b("client:known"), &table);
    assert_eq!(known.event, b("client:known"));
    assert_eq!(known.hash, b("existing"));
    let fresh = EventHash::new(&b("client:fresh"), &table);
    assert_eq!(fresh.hash, sha256::digest("client:fresh").into_bytes());
    assert_eq!(
        get_value_or_digest_sha256(&b("client:known"), &table),
        b("existing")
    );
}

#[test]
fn every_extracted_identifier_is_mapped() {
    let client = r#""client:a" and "client:b""#;
    let server = r#""server:c""#;
    let cef = r#""client:a" again"#;
    let mut table = PseudonymTable::new();
    fill_hash_map(&b(client), &b(server), &b(cef), &mut table);
    for id in ["client:a", "client:b", "server:c"] {
        assert!(table.get(&b(id)).is_some());
    }
    assert_eq!(table.len(), 3);
}

#[test]
fn round_trip_substitution() {
    let mut table = PseudonymTable::new();
    table.insert(b("client:login"), b("deadbeef"));
    let content = br#"emit("client:login", data);"#.to_vec();
    let rewritten = text_of(&replace_event_names_with_hashes(&table, &content));
    assert!(rewritten.contains("deadbeef"));
    assert!(!rewritten.contains("client:login"));
    assert_eq!(rewritten, r#"emit("deadbeef", data);"#);
}

#[test]
fn cross_file_consistency() {
    let client = r#"on("client:a", f); send("server:c", x);"#;
    let server = r#"handle("server:b"); reply("server:c");"#;
    let cef = r#"post("server:c");"#;
    let mut table = PseudonymTable::new();
    fill_hash_map(&b(client), &b(server), &b(cef), &mut table);
    assert_eq!(table.len(), 3);

    let p = text_of(table.get(&b("server:c")).unwrap());
    let new_server = text_of(&replace_event_names_with_hashes(&table, &b(server)));
    let new_cef = text_of(&replace_event_names_with_hashes(&table, &b(cef)));
    assert!(new_server.contains(&p));
    assert!(new_cef.contains(&p));
    assert!(!new_server.contains("server:c"));
    assert!(!new_cef.contains("server:c"));
}

#[test]
fn non_matching_text_is_untouched() {
    let client = r#""client:a""#;
    let mut table = PseudonymTable::new();
    fill_hash_map(&b(client), &b(""), &b(""), &mut table);

    let unrelated = b("function main() { return 42; } // client and server words");
    let rewritten = replace_event_names_with_hashes(&table, &unrelated);
    assert_eq!(rewritten, unrelated);
}

#[test]
fn second_run_is_a_no_op() {
    // Pseudonyms are hex digests: they no longer match the identifier
    // pattern, so running the pipeline again on its own output changes
    // nothing.
    let client = r#"emit("client:a"); emit("server:b");"#;
    let mut table = PseudonymTable::new();
    fill_hash_map(&b(client), &b(""), &b(""), &mut table);
    let once = replace_event_names_with_hashes(&table, &b(client));

    let mut table2 = PseudonymTable::new();
    fill_hash_map(&once, &b(""), &b(""), &mut table2);
    assert_eq!(table2.len(), 0);
    let twice = replace_event_names_with_hashes(&table2, &once);
    assert_eq!(twice, once);
}

#[test]
fn replace_all_is_literal_and_left_to_right() {
    let out = replace_all(&b("abcabcab"), &b("abc"), &b("x"));
    assert_eq!(out, b("xxab"));
    let untouched = replace_all(&b("hello"), &b("abc"), &b("x"));
    assert_eq!(untouched, b("hello"));
}

#[test]
fn cef_index_file_naming_convention() {
    assert!(is_cef_index_file_name(&b("index-3f2a.js")));
    assert!(is_cef_index_file_name(&b("index-bundle.js")));
    assert!(!is_cef_index_file_name(&b("main.js")));
    assert!(!is_cef_index_file_name(&b("index-bundle.css")));
    assert!(!is_cef_index_file_name(&b("index.js")));
}
