use zerotier_dns::directory::{
    find_member, has_short_fractions, lookup_member, members_seen, parse_listing, DirectoryError,
    Member,
};
use zerotier_dns::packet::DnsPacket;
use zerotier_dns::query_type::QueryType;
use zerotier_dns::question::DnsQuestion;
use zerotier_dns::record::DnsRecord;
use zerotier_dns::result_code::ResultCode;
use zerotier_dns::server::{address_answer, query_packet, respond, wanted_name};

const LISTING: &str = r#"[
    {"name": "alpha", "config": {"ipAssignments": ["10.147.20.1", "10.147.20.9"]}},
    "not a member",
    {"name": "beta", "config": {"ipAssignments": ["10.147.20.2"]}},
    {"name": "beta", "config": {"ipAssignments": ["10.147.20.3"]}},
    {"name": "bare"},
    {"name": 42, "config": {"ipAssignments": [true]}},
    {"config": {"ipAssignments": ["10.147.20.4"]}}
]"#;

fn member(name: &str, address: &str) -> Member {
    Member { name: name.to_string(), address: address.to_string() }
}

#[test]
fn first_member_with_the_name_is_found() {
    assert_eq!(lookup_member(LISTING, "alpha"), Ok(Some(member("alpha", "10.147.20.1"))));
    assert_eq!(lookup_member(LISTING, "beta"), Ok(Some(member("beta", "10.147.20.2"))));
}

#[test]
fn unknown_name_is_not_found() {
    assert_eq!(lookup_member(LISTING, "gamma"), Ok(None));
    assert_eq!(lookup_member(LISTING, "Alpha"), Ok(None));
    assert_eq!(lookup_member(LISTING, "not a member"), Ok(None));
    assert_eq!(lookup_member(LISTING, ""), Ok(None));
}

#[test]
fn missing_entries_read_as_null() {
    assert_eq!(lookup_member(LISTING, "bare"), Ok(Some(member("bare", "null"))));
    assert_eq!(lookup_member(LISTING, "null"), Ok(Some(member("null", "10.147.20.4"))));
}

#[test]
fn values_that_are_no_strings_are_printed() {
    assert_eq!(lookup_member(LISTING, "42"), Ok(Some(member("42", "true"))));
}

#[test]
fn listing_that_is_no_array_has_no_members() {
    let object = r#"{"name": "alpha", "config": {"ipAssignments": ["1.2.3.4"]}}"#;
    assert_eq!(lookup_member(object, "alpha"), Ok(None));
    assert_eq!(lookup_member("[]", "alpha"), Ok(None));
    assert_eq!(lookup_member("null", "null"), Ok(None));
    assert_eq!(lookup_member("\"alpha\"", "alpha"), Ok(None));
}

#[test]
fn text_that_is_no_json_is_malformed() {
    assert_eq!(lookup_member("", "a"), Err(DirectoryError::Malformed));
    assert_eq!(lookup_member("[{\"name\": ", "a"), Err(DirectoryError::Malformed));
    assert_eq!(lookup_member("<html>", "a"), Err(DirectoryError::Malformed));
    assert_eq!(lookup_member("[1, 2,]", "a"), Err(DirectoryError::Malformed));
}

#[test]
fn fraction_of_zero_that_cannot_be_counted_is_not_parsed() {
    let long = format!("[0.{}]", "0".repeat(40000));
    assert_eq!(lookup_member(&long, "a"), Err(DirectoryError::FractionTooLong));
    let over = format!("[0.{}]", "0".repeat(32769));
    assert_eq!(lookup_member(&over, "a"), Err(DirectoryError::FractionTooLong));
    let negative = format!("[-0.{}1]", "0".repeat(32768));
    assert_eq!(lookup_member(&negative, "a"), Err(DirectoryError::FractionTooLong));
    let late = format!("[0.{}123456789012345678901234567890]", "0".repeat(32750));
    assert_eq!(lookup_member(&late, "a"), Err(DirectoryError::FractionTooLong));
    let member = format!(
        "[{{\"name\":\"a\",\"config\":{{\"ipAssignments\":[\"10.0.0.1\"]}},\"x\":0.{}}}]",
        "0".repeat(33000)
    );
    assert_eq!(lookup_member(&member, "a"), Err(DirectoryError::FractionTooLong));
    assert_eq!(parse_listing(&long).err(), Some(DirectoryError::FractionTooLong));
}

#[test]
fn longest_fraction_of_zero_is_parsed() {
    let edge = format!("[0.{}]", "0".repeat(32768));
    assert_eq!(lookup_member(&edge, "a"), Ok(None));
    let nines = format!("[0.{}{}]", "0".repeat(32748), "9".repeat(23));
    assert_eq!(lookup_member(&nines, "a"), Ok(None));
    let passed_over = format!("[0.5{}]", "1234567890".repeat(4000));
    assert_eq!(lookup_member(&passed_over, "a"), Ok(None));
    let full = format!("[0.{}{}]", "0".repeat(32749), "9".repeat(19));
    assert_eq!(lookup_member(&full, "a"), Ok(None));
    let twos = format!("[-0.{}{}]", "0".repeat(32749), "2".repeat(40));
    assert_eq!(lookup_member(&twos, "a"), Ok(None));
    let gap = format!("[0.{}1844674407370955161{}0]", "0".repeat(32748), "9".repeat(50));
    assert_eq!(lookup_member(&gap, "a"), Ok(None));
    let wide = format!("[0.{}1844674407370955161{}0]", "0".repeat(32749), "9".repeat(50));
    assert_eq!(lookup_member(&wide, "a"), Err(DirectoryError::FractionTooLong));
    let closed = format!("[0.{}1844674407370955161{}6]", "0".repeat(32749), "9".repeat(50));
    assert_eq!(lookup_member(&closed, "a"), Ok(None));
}

#[test]
fn long_runs_of_digits_elsewhere_are_parsed() {
    let integer = format!("[{}]", "1".repeat(32768));
    assert_eq!(lookup_member(&integer, "a"), Ok(None));
    let zeros = format!("[5.{}]", "0".repeat(40000));
    assert_eq!(lookup_member(&zeros, "a"), Ok(None));
    let ten = format!("[10.{}]", "0".repeat(40000));
    assert_eq!(lookup_member(&ten, "a"), Ok(None));
    let exponent = format!("[0e{}]", "0".repeat(40000));
    assert_eq!(lookup_member(&exponent, "a"), Ok(None));
    let many_short = format!("[{}0]", "12345,".repeat(20000));
    assert_eq!(lookup_member(&many_short, "a"), Ok(None));
}

#[test]
fn digits_inside_strings_are_not_counted() {
    let id = format!(
        "[{{\"name\":\"a\",\"config\":{{\"ipAssignments\":[\"10.0.0.1\"]}},\"id\":\"{}\"}}]",
        "7".repeat(40000)
    );
    assert_eq!(lookup_member(&id, "a"), Ok(Some(member("a", "10.0.0.1"))));
    let fraction = format!("[\"0.{}\"]", "0".repeat(40000));
    assert_eq!(lookup_member(&fraction, "a"), Ok(None));
    let escaped = format!("[\"\\\"0.{}\", \"\\\\\"]", "0".repeat(40000));
    assert_eq!(lookup_member(&escaped, "a"), Ok(None));
    let name = format!("0.{}", "0".repeat(33000));
    let named = format!(
        "[{{\"name\":\"{}\",\"config\":{{\"ipAssignments\":[\"10.0.0.2\"]}}}}]",
        name
    );
    assert_eq!(lookup_member(&named, &name), Ok(Some(member(&name, "10.0.0.2"))));
}

#[test]
fn fractions_are_measured() {
    assert!(has_short_fractions(b""));
    assert!(has_short_fractions(b"no digits"));
    assert!(has_short_fractions("9".repeat(40000).as_bytes()));
    assert!(has_short_fractions(format!("0.{}", "0".repeat(32768)).as_bytes()));
    assert!(!has_short_fractions(format!("0.{}", "0".repeat(32769)).as_bytes()));
    assert!(!has_short_fractions(format!("x 0.{}", "0".repeat(32769)).as_bytes()));
    assert!(has_short_fractions(format!("20.{}", "0".repeat(32769)).as_bytes()));
    assert!(has_short_fractions(format!("3.{}", "0".repeat(32769)).as_bytes()));
    assert!(has_short_fractions(format!(".{}", "0".repeat(32769)).as_bytes()));
    assert!(has_short_fractions(format!("\"0.{}\"", "0".repeat(32769)).as_bytes()));
    assert!(!has_short_fractions(format!("\"\"0.{}", "0".repeat(32769)).as_bytes()));
    assert!(has_short_fractions(format!("\"\\\"0.{}", "0".repeat(32769)).as_bytes()));
    assert!(!has_short_fractions(format!("\"\\\\\"0.{}", "0".repeat(32769)).as_bytes()));
    let broken = format!("0.{}x0.{}", "0".repeat(32768), "0".repeat(32768));
    assert!(has_short_fractions(broken.as_bytes()));
    let counted = format!("0.{}{}", "0".repeat(32749), "1".repeat(20));
    assert!(!has_short_fractions(counted.as_bytes()));
    let not_counted = format!("0.{}{}", "0".repeat(32749), "2".repeat(40));
    assert!(has_short_fractions(not_counted.as_bytes()));
}

#[test]
fn parse_listing_gives_the_value() {
    let listing = parse_listing(LISTING).unwrap();
    assert!(listing.is_array());
    assert_eq!(listing.len(), 7);
    assert_eq!(find_member(&listing, "alpha"), Some(member("alpha", "10.147.20.1")));
    assert_eq!(parse_listing("[1,").err(), Some(DirectoryError::Malformed));
    assert_eq!(parse_listing("").err(), Some(DirectoryError::Malformed));
}

#[test]
fn members_seen_are_the_objects_up_to_the_match() {
    let listing = json::parse(LISTING).unwrap();
    assert_eq!(members_seen(&listing, "alpha"), vec![member("alpha", "10.147.20.1")]);
    assert_eq!(
        members_seen(&listing, "beta"),
        vec![member("alpha", "10.147.20.1"), member("beta", "10.147.20.2")]
    );
    assert_eq!(
        members_seen(&listing, "gamma"),
        vec![
            member("alpha", "10.147.20.1"),
            member("beta", "10.147.20.2"),
            member("beta", "10.147.20.3"),
            member("bare", "null"),
            member("42", "true"),
            member("null", "10.147.20.4"),
        ]
    );
    assert_eq!(members_seen(&json::JsonValue::Null, "alpha"), vec![]);
    let object = json::parse(r#"{"name": "alpha"}"#).unwrap();
    assert_eq!(members_seen(&object, "alpha"), vec![]);
}

#[test]
fn find_member_works_on_a_parsed_value() {
    let listing = json::parse(LISTING).unwrap();
    assert_eq!(find_member(&listing, "beta"), Some(member("beta", "10.147.20.2")));
    assert_eq!(find_member(&listing, "delta"), None);
    let mut built = json::JsonValue::new_array();
    let mut device = json::JsonValue::new_object();
    device.insert("name", "built").unwrap();
    built.push(json::JsonValue::Null).unwrap();
    built.push(device).unwrap();
    assert_eq!(find_member(&built, "built"), Some(member("built", "null")));
    assert_eq!(find_member(&json::JsonValue::Null, "built"), None);
}

#[test]
fn names_with_escapes_and_other_scripts_are_compared_as_text() {
    let listing = r#"[{"name": "café \"x\"", "config": {"ipAssignments": ["::1"]}},
                      {"name": "日本", "config": {"ipAssignments": [12.5]}}]"#;
    assert_eq!(lookup_member(listing, "café \"x\""), Ok(Some(member("café \"x\"", "::1"))));
    assert_eq!(lookup_member(listing, "日本"), Ok(Some(member("日本", "12.5"))));
}

#[test]
fn address_answer_holds_one_address_record() {
    let packet = address_answer("alpha".to_string(), [10, 147, 20, 1]);
    assert_eq!(packet.header.answers, 1);
    assert_eq!(packet.header.id, 0);
    assert_eq!(
        packet.answers,
        vec![DnsRecord::A { domain: "alpha".to_string(), addr: [10, 147, 20, 1], ttl: 3600 }]
    );
    assert!(packet.questions.is_empty());
    assert!(packet.authorities.is_empty());
    assert!(packet.resources.is_empty());
}

#[test]
fn query_packet_asks_one_question() {
    let packet = query_packet("example.com", QueryType::A);
    assert_eq!(packet.header.id, 6666);
    assert_eq!(packet.header.questions, 1);
    assert!(packet.header.recursion_desired);
    assert!(!packet.header.response);
    assert_eq!(packet.questions, vec![DnsQuestion::new("example.com".to_string(), QueryType::A)]);
    assert!(packet.answers.is_empty());
}

#[test]
fn request_without_question_gets_a_format_error() {
    let mut request = DnsPacket::new();
    request.header.id = 321;
    assert_eq!(wanted_name(&request), None);
    let response = respond(&request, Some(address_answer("x".to_string(), [1, 1, 1, 1])));
    assert_eq!(response.header.id, 321);
    assert!(response.header.response);
    assert!(response.header.recursion_desired);
    assert!(response.header.recursion_available);
    assert_eq!(response.header.rescode, ResultCode::FORMERR);
    assert!(response.questions.is_empty());
    assert!(response.answers.is_empty());
}

#[test]
fn resolved_request_gets_the_sections_of_the_result() {
    let mut request = DnsPacket::new();
    request.header.id = 55;
    request.questions.push(DnsQuestion::new("alpha".to_string(), QueryType::A));
    request.questions.push(DnsQuestion::new("second".to_string(), QueryType::A));
    assert_eq!(wanted_name(&request), Some("alpha".to_string()));
    let mut result = address_answer("alpha".to_string(), [10, 0, 0, 1]);
    result.header.rescode = ResultCode::NXDOMAIN;
    result.authorities.push(DnsRecord::UNKNOWN {
        domain: "ns".to_string(),
        qtype: 2,
        data_len: 0,
        ttl: 1,
    });
    result.resources.push(DnsRecord::A { domain: "ns".to_string(), addr: [9, 9, 9, 9], ttl: 2 });
    let response = respond(&request, Some(result.clone()));
    assert_eq!(response.header.id, 55);
    assert!(response.header.response);
    assert!(response.header.recursion_desired);
    assert!(response.header.recursion_available);
    assert!(!response.header.authoritative_answer);
    assert_eq!(response.header.rescode, ResultCode::NXDOMAIN);
    assert_eq!(response.header.answers, 0);
    assert_eq!(response.questions, vec![DnsQuestion::new("alpha".to_string(), QueryType::A)]);
    assert_eq!(response.answers, result.answers);
    assert_eq!(response.authorities, result.authorities);
    assert_eq!(response.resources, result.resources);
}

#[test]
fn failed_lookup_gets_a_server_failure() {
    let mut request = DnsPacket::new();
    request.header.id = 8;
    request.questions.push(DnsQuestion::new("alpha".to_string(), QueryType::A));
    let response = respond(&request, None);
    assert_eq!(response.header.id, 8);
    assert_eq!(response.header.rescode, ResultCode::SERVFAIL);
    assert!(response.header.response);
    assert!(response.questions.is_empty());
    assert!(response.answers.is_empty());
}
