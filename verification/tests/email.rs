use regex_nfa::parser::parse;
use regex_nfa::state::NFA;

const EMAIL_REGEX: &str = "[a-zA-Z][a-zA-Z0-9_.]+@[a-zA-Z0-9]+.[a-zA-Z]{2,}";

fn run_email(input: &str, expected: bool) {
    let ctx = parse(EMAIL_REGEX);
    let mut nfa = NFA { ..Default::default() };
    nfa.context_to_nfa(&ctx);
    assert_eq!(nfa.matches(input), expected, "input: {input}");
}

#[test]
fn test_nfa_plain_address() {
    run_email("valid_email@example.com", true);
}

#[test]
fn test_nfa_dot_in_local_part() {
    run_email("john.doe@email.com", true);
}

#[test]
fn test_nfa_underscore_in_local_part() {
    run_email("user_name@email.org", true);
}

#[test]
fn test_nfa_two_letter_tld() {
    run_email("support@email.io", true);
}

#[test]
fn test_nfa_numeric_domain() {
    run_email("contact@123.com", true);
}

#[test]
fn test_nfa_biz_tld() {
    run_email("sales@email.biz", true);
}

#[test]
fn test_nfa_test_tld() {
    run_email("test_email@email.test", true);
}

#[test]
fn test_nfa_xyz_tld() {
    run_email("random.email@email.xyz", true);
}

#[test]
fn test_nfa_domain_with_trailing_digits() {
    run_email("user@domain12345.com", true);
}

#[test]
fn test_nfa_domain_with_leading_digits() {
    run_email("user@12345domain.com", true);
}

#[test]
fn test_nfa_multi_label_tld() {
    run_email("alice.smith123@email.co.uk", false);
}

#[test]
fn test_nfa_missing_domain() {
    run_email("invalid.email@", false);
}

#[test]
fn test_nfa_local_part_starts_with_dot() {
    run_email(".invalid@email.com", false);
}

#[test]
fn test_nfa_double_dot_in_domain() {
    run_email("email@invalid..com", false);
}

#[test]
fn test_nfa_domain_starts_with_hyphen() {
    run_email("user@-invalid.com", false);
}

#[test]
fn test_nfa_domain_ends_with_hyphen() {
    run_email("user@invalid-.com", false);
}

#[test]
fn test_nfa_space_in_domain() {
    run_email("user@in valid.com", false);
}

#[test]
fn test_nfa_empty_domain_before_com() {
    run_email("user@.com", false);
}

#[test]
fn test_nfa_empty_domain_before_co() {
    run_email("user@.co", false);
}

#[test]
fn test_nfa_single_char_tld() {
    run_email("user@domain.c", false);
}

#[test]
fn test_nfa_tld_starts_with_digit() {
    run_email("user@domain.1a", false);
}

#[test]
fn test_nfa_digit_inside_tld() {
    run_email("user@domain.c0m", false);
}

#[test]
fn test_nfa_double_dot_before_tld() {
    run_email("user@domain..com", false);
}

#[test]
fn test_nfa_leading_dot_in_domain() {
    run_email("user@.email.com", false);
}

#[test]
fn test_nfa_single_char_domain_label() {
    run_email("user@emai.l.com", false);
}

#[test]
fn test_nfa_underscore_in_domain() {
    run_email("user@e_mail.com", false);
}

#[test]
fn test_nfa_plus_in_domain() {
    run_email("user@e+mail.com", false);
}

#[test]
fn test_nfa_caret_in_domain() {
    run_email("user@e^mail.com", false);
}

#[test]
fn test_nfa_asterisk_in_domain() {
    run_email("user@e*mail.com", false);
}

#[test]
fn test_nfa_dot_inside_domain_label() {
    run_email("user@e.mail.com", false);
}

#[test]
fn test_nfa_underscore_in_domain_net_tld() {
    run_email("user@e_mail.net", false);
}

#[test]
fn test_nfa_subdomain() {
    run_email("user@sub.domain.com", false);
}

#[test]
fn test_nfa_hyphenated_domain() {
    run_email("user@sub-domain.com", false);
}

#[test]
fn test_nfa_subdomain_with_digits() {
    run_email("user@sub.domain12345.com", false);
}

#[test]
fn test_nfa_subdomain_with_hyphen_and_digits() {
    run_email("user@sub.domain-12345.com", false);
}

#[test]
fn test_nfa_subdomain_starts_with_hyphen() {
    run_email("user@-sub.domain.com", false);
}

#[test]
fn test_nfa_subdomain_ends_with_hyphen() {
    run_email("user@sub-.domain.com", false);
}

#[test]
fn test_nfa_domain_label_ends_with_hyphen() {
    run_email("user@domain-.com", false);
}

#[test]
fn test_nfa_subdomain_with_digit_in_tld() {
    run_email("user@sub.domain.c0m", false);
}

#[test]
fn test_nfa_subdomain_with_single_char_tld() {
    run_email("user@sub.domain.c", false);
}

#[test]
fn test_nfa_subdomain_with_numeric_tld() {
    run_email("user@sub.domain.1a", false);
}

#[test]
fn test_nfa_subdomain_with_double_dot() {
    run_email("user@sub.domain..com", false);
}
