use pact_sse_plugin::rules::{
    contains_chars, is_admitted_expression, is_decimal_chars, is_integer_chars, is_safe_datetime_format,
    rule_accepts, rule_of_form_attributes, text_attribute_of, value_matches_rules, AttributeValue, MatchRule,
};

fn chars(s: &str) -> Vec<char> {
    s.chars().collect()
}

fn accepts(rule: MatchRule, expected: &str, actual: &str) -> bool {
    rule_accepts(&rule, &expected.to_string(), &actual.to_string())
}

#[test]
fn integer_texts() {
    assert!(is_integer_chars(&chars("0")));
    assert!(is_integer_chars(&chars("-12")));
    assert!(!is_integer_chars(&chars("")));
    assert!(!is_integer_chars(&chars("-")));
    assert!(!is_integer_chars(&chars("1.5")));
    assert!(!is_integer_chars(&chars("+1")));
}

#[test]
fn decimal_texts() {
    assert!(is_decimal_chars(&chars("1.5")));
    assert!(is_decimal_chars(&chars("-10.25")));
    assert!(!is_decimal_chars(&chars("1.")));
    assert!(!is_decimal_chars(&chars(".5")));
    assert!(!is_decimal_chars(&chars("1.2.3")));
    assert!(!is_decimal_chars(&chars("12")));
}

#[test]
fn contained_texts() {
    assert!(contains_chars(&chars("hello world"), &chars("o w")));
    assert!(contains_chars(&chars("abc"), &chars("")));
    assert!(!contains_chars(&chars("abc"), &chars("abcd")));
    assert!(!contains_chars(&chars("abc"), &chars("ac")));
}

#[test]
fn each_rule_kind() {
    assert!(accepts(MatchRule::Equality, "a", "a"));
    assert!(!accepts(MatchRule::Equality, "a", "b"));
    assert!(accepts(MatchRule::Type, "100", "aa"));
    assert!(accepts(MatchRule::Number, "1", "2.5"));
    assert!(!accepts(MatchRule::Number, "1", "x"));
    assert!(accepts(MatchRule::Integer, "1", "-3"));
    assert!(!accepts(MatchRule::Integer, "1", "3.0"));
    assert!(accepts(MatchRule::Decimal, "1.0", "3.25"));
    assert!(!accepts(MatchRule::Decimal, "1.0", "3"));
    assert!(accepts(MatchRule::Boolean, "true", "false"));
    assert!(!accepts(MatchRule::Boolean, "true", "yes"));
    assert!(accepts(MatchRule::NotEmpty, "a", "b"));
    assert!(!accepts(MatchRule::NotEmpty, "a", ""));
    assert!(accepts(MatchRule::Include("ell".to_string()), "hello", "yellow"));
    assert!(!accepts(MatchRule::Include("ell".to_string()), "hello", "help"));
    assert!(accepts(MatchRule::Other, "a", "a"));
    assert!(!accepts(MatchRule::Other, "a", "b"));
}

#[test]
fn regex_rule() {
    let r = MatchRule::Regex("id: \\d+, name: \\w+".to_string());
    assert!(accepts(r, "", "id: 12, name: John"));
    assert!(!accepts(MatchRule::Regex("^\\d+$".to_string()), "", "12a"));
    assert!(!accepts(MatchRule::Regex("(".to_string()), "", "("));
}

#[test]
fn datetime_rules() {
    assert!(accepts(MatchRule::Timestamp("yyyy-MM-dd".to_string()), "2000-01-01", "2015-02-21"));
    assert!(!accepts(MatchRule::Timestamp("yyyy-MM-dd".to_string()), "2000-01-01", "21/02/2015"));
    assert!(accepts(MatchRule::Date("yyyy-MM-dd".to_string()), "", "2015-02-21"));
    assert!(accepts(MatchRule::Time("HH:mm".to_string()), "", "12:30"));
}

#[test]
fn rule_lists() {
    let none: Vec<MatchRule> = Vec::new();
    assert!(value_matches_rules(&none, &"a".to_string(), &"a".to_string()));
    assert!(!value_matches_rules(&none, &"a".to_string(), &"b".to_string()));
    let both = vec![MatchRule::Number, MatchRule::Integer];
    assert!(value_matches_rules(&both, &"1".to_string(), &"7".to_string()));
    assert!(!value_matches_rules(&both, &"1".to_string(), &"7.5".to_string()));
}

fn form(attrs: Vec<(&str, &str)>) -> Vec<(String, AttributeValue)> {
    attrs.into_iter().map(|(k, v)| (k.to_string(), AttributeValue::Text(v.to_string()))).collect()
}

#[test]
fn safe_datetime_formats() {
    assert!(is_safe_datetime_format(&"yyyy-MM-dd".to_string()));
    assert!(is_safe_datetime_format(&"yyyyy".to_string()));
    assert!(is_safe_datetime_format(&"yyyyMMdd".to_string()));
    assert!(!is_safe_datetime_format(&"yyyyy-dd".to_string()));
    assert!(!is_safe_datetime_format(&"d uuuuuu".to_string()));
    assert!(!is_safe_datetime_format(&"YYYYY-MM-dd".to_string()));
    assert!(!accepts(MatchRule::Timestamp("yyyyy-dd".to_string()), "", "40000-01"));
    assert!(!accepts(MatchRule::Date("yyyyy-dd".to_string()), "", "2000-01"));
}

#[test]
fn rules_from_json_forms() {
    assert!(matches!(rule_of_form_attributes(&form(vec![("match", "equality")])), MatchRule::Equality));
    assert!(matches!(rule_of_form_attributes(&form(vec![("match", "regex"), ("regex", "a+")])), MatchRule::Regex(p) if p == "a+"));
    assert!(matches!(rule_of_form_attributes(&form(vec![("match", "regex")])), MatchRule::Other));
    let mut min_type = form(vec![("match", "type")]);
    min_type.push(("min".to_string(), AttributeValue::Json("2".to_string())));
    assert!(matches!(rule_of_form_attributes(&min_type), MatchRule::Type));
    assert!(matches!(rule_of_form_attributes(&form(vec![("format", "HH:mm"), ("match", "time")])), MatchRule::Time(f) if f == "HH:mm"));
    assert!(matches!(rule_of_form_attributes(&form(vec![("format", "yyyy"), ("match", "datetime")])), MatchRule::Timestamp(f) if f == "yyyy"));
    assert!(matches!(rule_of_form_attributes(&form(vec![("match", "date")])), MatchRule::Date(f) if f.is_empty()));
    assert!(matches!(rule_of_form_attributes(&form(vec![("match", "include"), ("value", "x")])), MatchRule::Include(v) if v == "x"));
    assert!(matches!(rule_of_form_attributes(&form(vec![("match", "notEmpty")])), MatchRule::NotEmpty));
    assert!(matches!(rule_of_form_attributes(&form(vec![("match", "semver")])), MatchRule::Other));
    assert!(matches!(rule_of_form_attributes(&form(vec![("regex", "a")])), MatchRule::Other));
    assert!(matches!(rule_of_form_attributes(&form(vec![("match", "type"), ("match", "number")])), MatchRule::Number));
}

#[test]
fn attribute_lookup() {
    let mut attrs = form(vec![("a", "1"), ("b", "2"), ("a", "3")]);
    assert_eq!(text_attribute_of(&attrs, "a").as_deref(), Some("3"));
    assert_eq!(text_attribute_of(&attrs, "c"), None);
    attrs.push(("b".to_string(), AttributeValue::Json("4".to_string())));
    assert_eq!(text_attribute_of(&attrs, "b"), None);
}

#[test]
fn admitted_expressions() {
    assert!(is_admitted_expression("matching(type, 'x')"));
    assert!(!is_admitted_expression("eachKey(matching(type, 'x'))"));
    assert!(!is_admitted_expression("eachValue(matching(type, 'x'))"));
}
