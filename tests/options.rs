use enprot::options::{choose_policy, parse_key_list, parse_key_pair, split_list, PolicyChoice};

#[test]
fn policy_selection() {
    assert_eq!(choose_policy(false, None), Ok(PolicyChoice::Unrestricted));
    assert_eq!(choose_policy(true, None), Ok(PolicyChoice::Nist));
    assert_eq!(choose_policy(false, Some("nist")), Ok(PolicyChoice::Nist));
    assert_eq!(choose_policy(false, Some("none")), Ok(PolicyChoice::Unrestricted));
    assert_eq!(choose_policy(true, Some("nist")), Ok(PolicyChoice::Nist));
    assert_eq!(
        choose_policy(true, Some("none")),
        Err("Policy setting of 'none' conflicts with --fips")
    );
    assert_eq!(choose_policy(false, Some("fips")), Err("Unknown policy"));
}

#[test]
fn comma_lists() {
    assert_eq!(split_list("Agent_007,GEHEIM"), vec!["Agent_007".to_string(), "GEHEIM".to_string()]);
    assert_eq!(split_list("Agent_007"), vec!["Agent_007".to_string()]);
    assert_eq!(split_list(""), vec![String::new()]);
    assert_eq!(split_list("a,,b,"), vec!["a".to_string(), String::new(), "b".to_string(), String::new()]);
}

#[test]
fn key_pairs() {
    assert_eq!(
        parse_key_pair("Agent_007=password"),
        Some(("Agent_007".to_string(), "password".to_string()))
    );
    assert_eq!(parse_key_pair("w=a=b"), Some(("w".to_string(), "a=b".to_string())));
    assert_eq!(parse_key_pair("=password"), None);
    assert_eq!(parse_key_pair("word="), None);
    assert_eq!(parse_key_pair("word"), None);
    assert_eq!(parse_key_pair(""), None);
}

#[test]
fn key_lists() {
    assert_eq!(
        parse_key_list("Agent_007=password,GEHEIM=geheim"),
        Ok(vec![
            ("Agent_007".to_string(), "password".to_string()),
            ("GEHEIM".to_string(), "geheim".to_string()),
        ])
    );
    assert_eq!(
        parse_key_list("Agent_007=password,GEHEIM"),
        Err("Must be of the form WORD=PASSWORD[,WORD=PASSWORD]")
    );
}
