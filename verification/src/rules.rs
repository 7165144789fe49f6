//! Matching rules: what each rule accepts of an actual text value, given the
//! expected one, and the rules that Pact builds from a rule's attributes or from
//! a matching expression such as `matching(number, 100)`.
use vstd::prelude::*;

use crate::text;
use pact_models::matchingrules::MatchingRule as Pact;

verus! {

/// A matching rule, as far as it concerns text values.
pub enum MatchRule {
    /// The actual value equals the expected one.
    Equality,
    /// The actual value matches the regular expression.
    Regex(String),
    /// Any text is accepted: both values are strings.
    Type,
    /// The actual value is an integer or a decimal number.
    Number,
    /// The actual value is an integer.
    Integer,
    /// The actual value is a decimal number with a fractional part.
    Decimal,
    /// The actual value is `true` or `false`.
    Boolean,
    /// The actual value is not empty.
    NotEmpty,
    /// The actual value is a date in the given format.
    Date(String),
    /// The actual value is a time in the given format.
    Time(String),
    /// The actual value is a date and time in the given format.
    Timestamp(String),
    /// The actual value contains the given text.
    Include(String),
    /// A rule that checks nothing of a text value on its own (null, semantic
    /// version, content type, collection, status code and plugin rules): the
    /// values must be equal.
    Other,
}

/// The mathematical content of a [`MatchRule`].
pub enum RuleView {
    Equality,
    Regex(Seq<char>),
    Type,
    Number,
    Integer,
    Decimal,
    Boolean,
    NotEmpty,
    Date(Seq<char>),
    Time(Seq<char>),
    Timestamp(Seq<char>),
    Include(Seq<char>),
    Other,
}

impl View for MatchRule {
    type V = RuleView;

    open spec fn view(&self) -> RuleView {
        match self {
            MatchRule::Equality => RuleView::Equality,
            MatchRule::Regex(p) => RuleView::Regex(p@),
            MatchRule::Type => RuleView::Type,
            MatchRule::Number => RuleView::Number,
            MatchRule::Integer => RuleView::Integer,
            MatchRule::Decimal => RuleView::Decimal,
            MatchRule::Boolean => RuleView::Boolean,
            MatchRule::NotEmpty => RuleView::NotEmpty,
            MatchRule::Date(f) => RuleView::Date(f@),
            MatchRule::Time(f) => RuleView::Time(f@),
            MatchRule::Timestamp(f) => RuleView::Timestamp(f@),
            MatchRule::Include(v) => RuleView::Include(v@),
            MatchRule::Other => RuleView::Other,
        }
    }
}

impl MatchRule {
    /// A copy of this rule.
    pub fn copy_of(&self) -> (r: MatchRule)
        ensures
            r@ == self@,
    {
        match self {
            MatchRule::Equality => MatchRule::Equality,
            MatchRule::Regex(p) => MatchRule::Regex(p.clone()),
            MatchRule::Type => MatchRule::Type,
            MatchRule::Number => MatchRule::Number,
            MatchRule::Integer => MatchRule::Integer,
            MatchRule::Decimal => MatchRule::Decimal,
            MatchRule::Boolean => MatchRule::Boolean,
            MatchRule::NotEmpty => MatchRule::NotEmpty,
            MatchRule::Date(f) => MatchRule::Date(f.clone()),
            MatchRule::Time(f) => MatchRule::Time(f.clone()),
            MatchRule::Timestamp(f) => MatchRule::Timestamp(f.clone()),
            MatchRule::Include(v) => MatchRule::Include(v.clone()),
            MatchRule::Other => MatchRule::Other,
        }
    }
}

pub open spec fn rules_view(rs: Seq<MatchRule>) -> Seq<RuleView> {
    rs.map_values(|r: MatchRule| r@)
}

// ---------------------------------------------------------------------------
// Text forms of numbers
// ---------------------------------------------------------------------------

/// `s` without its leading minus sign, if it has one.
pub open spec fn unsigned_part(s: Seq<char>) -> Seq<char> {
    if s.len() > 0 && s[0] == '-' {
        s.skip(1)
    } else {
        s
    }
}

/// `s` is an optional minus sign followed by one or more decimal digits.
pub open spec fn is_integer_text(s: Seq<char>) -> bool {
    unsigned_part(s).len() > 0 && text::all_digits(unsigned_part(s))
}

/// `d` is one or more digits, a point at `k`, and one or more digits.
pub open spec fn point_at(d: Seq<char>, k: int) -> bool {
    &&& 0 < k < d.len() - 1
    &&& d[k] == '.'
    &&& text::all_digits(d.take(k))
    &&& text::all_digits(d.skip(k + 1))
}

/// `s` is an optional minus sign, digits, a decimal point and digits.
pub open spec fn is_decimal_text(s: Seq<char>) -> bool {
    exists|k: int| point_at(unsigned_part(s), k)
}

/// `s` is an integer or a decimal number.
pub open spec fn is_number_text(s: Seq<char>) -> bool {
    is_integer_text(s) || is_decimal_text(s)
}

/// `p` occurs in `s` at position `i`.
pub open spec fn occurs_at(s: Seq<char>, p: Seq<char>, i: int) -> bool {
    0 <= i && i + p.len() <= s.len() && s.subrange(i, i + p.len()) == p
}

/// `p` occurs somewhere in `s`.
pub open spec fn contains_text(s: Seq<char>, p: Seq<char>) -> bool {
    exists|i: int| occurs_at(s, p, i)
}

// ---------------------------------------------------------------------------
// What the outside crates compute
// ---------------------------------------------------------------------------

/// Whether `pattern` compiles as a regular expression of the `regex` crate
/// (`None` if not), and then whether it matches somewhere in `text`.
pub uninterp spec fn regex_match(pattern: Seq<char>, text: Seq<char>) -> Option<bool>;

/// Compiles `pattern` with `regex::Regex::new` and, where it compiles, asks
/// `Regex::is_match` whether it matches somewhere in `text`.
#[verifier::external_body]
fn regex_is_match(pattern: &str, text: &str) -> (r: Option<bool>)
    ensures
        r == regex_match(pattern@, text@),
{
    match regex::Regex::new(pattern) {
        Ok(re) => Some(re.is_match(text)),
        Err(_) => None,
    }
}

/// `f` holds five copies of `c` in a row, from position `i`.
pub open spec fn run_of_five(f: Seq<char>, c: char, i: int) -> bool {
    &&& 0 <= i
    &&& i + 5 <= f.len()
    &&& forall|j: int| i <= j < i + 5 ==> f[j] == c
}

/// A date and time format that Pact's validation can check without failing:
/// it has no day of the month (`d`), or no run of five or more year letters
/// (`y`, `Y` or `u`), whose value could be too large for a year.
pub open spec fn datetime_format_safe(f: Seq<char>) -> bool {
    !(exists|i: int| 0 <= i < f.len() && f[i] == 'd') || !(exists|i: int| long_year_at(f, i))
}

/// `f` holds five year letters of one kind in a row, from position `i`.
pub open spec fn long_year_at(f: Seq<char>, i: int) -> bool {
    run_of_five(f, 'y', i) || run_of_five(f, 'Y', i) || run_of_five(f, 'u', i)
}

/// Whether Pact's date and time validation accepts `value` in `format`.
pub uninterp spec fn datetime_matches(value: Seq<char>, format: Seq<char>) -> bool;

/// Calls `pact_models::time_utils::validate_datetime`, which checks `value`
/// against a Java-style date and time pattern. On a format with a day and a
/// year of five or more letters it fails when the year does not fit an `i16`,
/// so such formats are not admitted.
#[verifier::external_body]
fn datetime_valid(value: &str, format: &str) -> (r: bool)
    requires
        datetime_format_safe(format@),
    ensures
        r == datetime_matches(value@, format@),
{
    pact_models::time_utils::validate_datetime(value, format).is_ok()
}

/// Whether `f` holds five copies of `c` in a row.
fn has_run_of_five(f: &Vec<char>, c: char) -> (b: bool)
    ensures
        b == exists|i: int| run_of_five(f@, c, i),
{
    let mut run: usize = 0;
    let mut i: usize = 0;
    while i < f.len()
        invariant
            i <= f.len(),
            run <= i,
            run < 5,
            forall|j: int| i - run <= j < i ==> f@[j] == c,
            i > run ==> f@[i - run - 1] != c,
            forall|k: int| 0 <= k && k + 5 <= i ==> !run_of_five(f@, c, k),
        decreases f.len() - i,
    {
        if f[i] == c {
            run += 1;
            if run == 5 {
                assert(run_of_five(f@, c, i + 1 - 5));
                return true;
            }
        } else {
            run = 0;
        }
        i += 1;
        assert forall|k: int| 0 <= k && k + 5 <= i implies !run_of_five(f@, c, k) by {
            if k + 5 == i && run_of_five(f@, c, k) {
                assert(f@[i - 1] == c);
                assert(f@[i - run - 1] == c);
            }
        }
    }
    assert forall|k: int| !run_of_five(f@, c, k) by {
        if run_of_five(f@, c, k) {
            assert(k + 5 <= i);
        }
    }
    false
}

/// Whether Pact's validation can check values against the format `f`, as
/// `datetime_format_safe` says.
pub fn is_safe_datetime_format(f: &String) -> (b: bool)
    ensures
        b == datetime_format_safe(f@),
{
    let cs = text::chars_of(f.as_str());
    let mut has_day = false;
    let mut i: usize = 0;
    while i < cs.len()
        invariant
            i <= cs.len(),
            has_day == exists|j: int| 0 <= j < i && cs@[j] == 'd',
        decreases cs.len() - i,
    {
        if cs[i] == 'd' {
            has_day = true;
        }
        i += 1;
    }
    if !has_day {
        return true;
    }
    let long_year = has_run_of_five(&cs, 'y') || has_run_of_five(&cs, 'Y') || has_run_of_five(&cs, 'u');
    if long_year {
        assert(exists|k: int| long_year_at(cs@, k)) by {
            if exists|k: int| run_of_five(cs@, 'y', k) {
                let k = choose|k: int| run_of_five(cs@, 'y', k);
                assert(long_year_at(cs@, k));
            } else if exists|k: int| run_of_five(cs@, 'Y', k) {
                let k = choose|k: int| run_of_five(cs@, 'Y', k);
                assert(long_year_at(cs@, k));
            } else {
                let k = choose|k: int| run_of_five(cs@, 'u', k);
                assert(long_year_at(cs@, k));
            }
        }
    }
    !long_year
}

/// Whether Pact's validation accepts `value` in `format`, where the format is
/// one it can check; any other format accepts nothing.
fn datetime_accepts(value: &String, format: &String) -> (b: bool)
    ensures
        b == (datetime_format_safe(format@) && datetime_matches(value@, format@)),
{
    if is_safe_datetime_format(format) {
        datetime_valid(value.as_str(), format.as_str())
    } else {
        false
    }
}

// ---------------------------------------------------------------------------
// Rules in their attribute form
// ---------------------------------------------------------------------------

/// The value of a rule attribute: a string, or the JSON text of any other value.
#[derive(Clone, Debug)]
pub enum AttributeValue {
    Text(String),
    Json(String),
}

/// The mathematical content of an [`AttributeValue`].
pub enum AttributeView {
    Text(Seq<char>),
    Json(Seq<char>),
}

impl View for AttributeValue {
    type V = AttributeView;

    open spec fn view(&self) -> AttributeView {
        match self {
            AttributeValue::Text(t) => AttributeView::Text(t@),
            AttributeValue::Json(t) => AttributeView::Json(t@),
        }
    }
}

pub open spec fn attributes_view(attrs: Seq<(String, AttributeValue)>) -> Seq<(Seq<char>, AttributeView)> {
    attrs.map_values(|a: (String, AttributeValue)| (a.0@, a.1@))
}

/// The value of the last attribute named `name`.
pub open spec fn attribute(form: Seq<(Seq<char>, AttributeView)>, name: Seq<char>) -> Option<AttributeView>
    decreases form.len(),
{
    if form.len() == 0 {
        None
    } else if form.last().0 == name {
        Some(form.last().1)
    } else {
        attribute(form.drop_last(), name)
    }
}

/// The text of the last attribute named `name`, where it is a string.
pub open spec fn text_attribute(form: Seq<(Seq<char>, AttributeView)>, name: Seq<char>) -> Option<Seq<char>> {
    match attribute(form, name) {
        Some(AttributeView::Text(t)) => Some(t),
        _ => None,
    }
}

/// The text of attribute `name`, or the empty text.
pub open spec fn text_or_empty(form: Seq<(Seq<char>, AttributeView)>, name: Seq<char>) -> Seq<char> {
    match text_attribute(form, name) {
        Some(t) => t,
        None => Seq::<char>::empty(),
    }
}

/// What a rule, given in its JSON form (its kind under `match` and its
/// attributes), checks of a text value. The limits of a type rule concern
/// collections, so on text it is a type rule; the rules that say nothing of a
/// text (null, semantic version, content type, collection, status code and
/// plugin rules, and a form without a kind) compare the values for equality.
pub open spec fn rule_of_form(form: Seq<(Seq<char>, AttributeView)>) -> RuleView {
    match text_attribute(form, "match"@) {
        Some(kind) => if kind == "equality"@ {
            RuleView::Equality
        } else if kind == "regex"@ {
            match text_attribute(form, "regex"@) {
                Some(p) => RuleView::Regex(p),
                None => RuleView::Other,
            }
        } else if kind == "type"@ {
            RuleView::Type
        } else if kind == "number"@ {
            RuleView::Number
        } else if kind == "integer"@ {
            RuleView::Integer
        } else if kind == "decimal"@ {
            RuleView::Decimal
        } else if kind == "boolean"@ {
            RuleView::Boolean
        } else if kind == "notEmpty"@ {
            RuleView::NotEmpty
        } else if kind == "date"@ {
            RuleView::Date(text_or_empty(form, "format"@))
        } else if kind == "time"@ {
            RuleView::Time(text_or_empty(form, "format"@))
        } else if kind == "datetime"@ {
            RuleView::Timestamp(text_or_empty(form, "format"@))
        } else if kind == "include"@ {
            RuleView::Include(text_or_empty(form, "value"@))
        } else {
            RuleView::Other
        },
        None => RuleView::Other,
    }
}

/// The text of the last attribute named `name`, where it is a string, as
/// `text_attribute` says.
pub fn text_attribute_of(form: &Vec<(String, AttributeValue)>, name: &str) -> (r: Option<String>)
    ensures
        crate::sse_content::opt_text(r) == text_attribute(attributes_view(form@), name@),
{
    let ghost fv = attributes_view(form@);
    let wanted = String::from_str(name);
    let mut k = form.len();
    assert(fv.take(k as int) =~= fv);
    while k > 0
        invariant
            k <= form.len(),
            wanted@ == name@,
            fv == attributes_view(form@),
            attribute(fv, name@) == attribute(fv.take(k as int), name@),
        decreases k,
    {
        assert(fv.take(k - 1) =~= fv.take(k as int).drop_last());
        if form[k - 1].0 == wanted {
            return match &form[k - 1].1 {
                AttributeValue::Text(t) => Some(t.clone()),
                AttributeValue::Json(_) => None,
            };
        }
        k -= 1;
    }
    None
}

fn text_or_empty_of(form: &Vec<(String, AttributeValue)>, name: &str) -> (r: String)
    ensures
        r@ == text_or_empty(attributes_view(form@), name@),
{
    match text_attribute_of(form, name) {
        Some(t) => t,
        None => String::new(),
    }
}

/// The rule of a JSON form, as `rule_of_form` says.
pub fn rule_of_form_attributes(form: &Vec<(String, AttributeValue)>) -> (r: MatchRule)
    ensures
        r@ == rule_of_form(attributes_view(form@)),
{
    let kind = match text_attribute_of(form, "match") {
        Some(k) => k,
        None => {
            return MatchRule::Other;
        },
    };
    if is_text(&kind, "equality") {
        MatchRule::Equality
    } else if is_text(&kind, "regex") {
        match text_attribute_of(form, "regex") {
            Some(p) => MatchRule::Regex(p),
            None => MatchRule::Other,
        }
    } else if is_text(&kind, "type") {
        MatchRule::Type
    } else if is_text(&kind, "number") {
        MatchRule::Number
    } else if is_text(&kind, "integer") {
        MatchRule::Integer
    } else if is_text(&kind, "decimal") {
        MatchRule::Decimal
    } else if is_text(&kind, "boolean") {
        MatchRule::Boolean
    } else if is_text(&kind, "notEmpty") {
        MatchRule::NotEmpty
    } else if is_text(&kind, "date") {
        MatchRule::Date(text_or_empty_of(form, "format"))
    } else if is_text(&kind, "time") {
        MatchRule::Time(text_or_empty_of(form, "format"))
    } else if is_text(&kind, "datetime") {
        MatchRule::Timestamp(text_or_empty_of(form, "format"))
    } else if is_text(&kind, "include") {
        MatchRule::Include(text_or_empty_of(form, "value"))
    } else {
        MatchRule::Other
    }
}

#[verifier::external_type_specification]
#[verifier::external_body]
pub struct ExJsonValue(serde_json::Value);

/// The attributes of the JSON object `v`, in the order its map gives them:
/// strings as texts, other values by their JSON text (`to_string`); no
/// attributes for a value that is not an object.
#[verifier::external_body]
fn json_attributes(v: serde_json::Value) -> Vec<(String, AttributeValue)> {
    match v {
        serde_json::Value::Object(m) => m.into_iter().map(|(k, v)| match v {
            serde_json::Value::String(s) => (k, AttributeValue::Text(s)),
            other => (k, AttributeValue::Json(other.to_string())),
        }).collect(),
        _ => Vec::new(),
    }
}

/// The JSON form (`MatchingRule::to_json`) of the rule that
/// `MatchingRule::from_json` builds from a JSON object of these attributes (a
/// later attribute of the same name replacing an earlier one), where every
/// JSON text reads and a rule is built.
pub uninterp spec fn rule_form_of(attrs: Seq<(Seq<char>, AttributeView)>) -> Option<Seq<(Seq<char>, AttributeView)>>;

/// Calls `serde_json::from_str` on each JSON text, then
/// `pact_models::matchingrules::MatchingRule::from_json` on the object of the
/// attributes, and gives the rule back in its `to_json` form.
#[verifier::external_body]
pub(crate) fn rule_from_attributes(attrs: &Vec<(String, AttributeValue)>) -> (r: Option<Vec<(String, AttributeValue)>>)
    ensures
        match r {
            Some(form) => rule_form_of(attributes_view(attrs@)) == Some(attributes_view(form@)),
            None => rule_form_of(attributes_view(attrs@)) is None,
        },
{
    let mut map = serde_json::Map::new();
    for (name, value) in attrs.iter() {
        let v = match value {
            AttributeValue::Text(t) => serde_json::Value::String(t.clone()),
            AttributeValue::Json(t) => serde_json::from_str(t).ok()?,
        };
        map.insert(name.clone(), v);
    }
    match Pact::from_json(&serde_json::Value::Object(map)) {
        Ok(rule) => Some(json_attributes(rule.to_json())),
        Err(_) => None,
    }
}

/// What `parse_matcher_def` reads from a matching expression, where it reads
/// one: the example value, and each of its rules in its JSON form (`None` for
/// a reference to another value).
pub uninterp spec fn matcher_definition_of(expr: Seq<char>) -> Option<
    (Seq<char>, Seq<Option<Seq<(Seq<char>, AttributeView)>>>),
>;

pub open spec fn opt_form_view(f: Option<Vec<(String, AttributeValue)>>) -> Option<Seq<(Seq<char>, AttributeView)>> {
    match f {
        Some(form) => Some(attributes_view(form@)),
        None => None,
    }
}

pub open spec fn definition_view(d: Option<(String, Vec<Option<Vec<(String, AttributeValue)>>>)>) -> Option<
    (Seq<char>, Seq<Option<Seq<(Seq<char>, AttributeView)>>>),
> {
    match d {
        Some((value, rules)) => Some(
            (value@, rules@.map_values(|f: Option<Vec<(String, AttributeValue)>>| opt_form_view(f))),
        ),
        None => None,
    }
}

/// An expression without the words `eachKey` and `eachValue`. Those make rules
/// over the keys and values of collections, whose `to_json` fails where they
/// refer to another value.
pub open spec fn expression_admitted(expr: Seq<char>) -> bool {
    !contains_text(expr, "eachKey"@) && !contains_text(expr, "eachValue"@)
}

/// Whether `expr` is admitted, as `expression_admitted` says.
pub fn is_admitted_expression(expr: &str) -> (b: bool)
    ensures
        b == expression_admitted(expr@),
{
    let e = text::chars_of(expr);
    !contains_chars(&e, &text::chars_of("eachKey")) && !contains_chars(&e, &text::chars_of("eachValue"))
}

/// Calls `pact_models::matchingrules::expressions::parse_matcher_def` on a
/// matching expression such as `matching(type, 'text')`, and gives each rule
/// in its `to_json` form.
#[verifier::external_body]
pub(crate) fn matcher_definition(expr: &str) -> (r: Option<(String, Vec<Option<Vec<(String, AttributeValue)>>>)>)
    requires
        expression_admitted(expr@),
    ensures
        definition_view(r) == matcher_definition_of(expr@),
{
    match pact_models::matchingrules::expressions::parse_matcher_def(expr) {
        Ok(def) => Some((def.value, def.rules.iter().map(|r| r.as_ref().left().map(|rule| json_attributes(rule.to_json()))).collect())),
        Err(_) => None,
    }
}

// ---------------------------------------------------------------------------
// What a rule accepts
// ---------------------------------------------------------------------------

/// Whether `rule` accepts the actual text value `actual` where `expected` was
/// expected.
pub open spec fn accepts(rule: RuleView, expected: Seq<char>, actual: Seq<char>) -> bool {
    match rule {
        RuleView::Equality => actual == expected,
        RuleView::Regex(p) => regex_match(p, actual) == Some(true),
        RuleView::Type => true,
        RuleView::Number => is_number_text(actual),
        RuleView::Integer => is_integer_text(actual),
        RuleView::Decimal => is_decimal_text(actual),
        RuleView::Boolean => actual == "true"@ || actual == "false"@,
        RuleView::NotEmpty => actual.len() > 0,
        RuleView::Date(f) => datetime_format_safe(f) && datetime_matches(actual, f),
        RuleView::Time(f) => datetime_format_safe(f) && datetime_matches(actual, f),
        RuleView::Timestamp(f) => datetime_format_safe(f) && datetime_matches(actual, f),
        RuleView::Include(v) => contains_text(actual, v),
        RuleView::Other => actual == expected,
    }
}

/// Whether an actual value matches the expected one under a list of rules: it
/// equals it where there is no rule, and else every rule accepts it.
pub open spec fn value_matches(rules: Seq<RuleView>, expected: Seq<char>, actual: Seq<char>) -> bool {
    if rules.len() == 0 {
        actual == expected
    } else {
        forall|i: int| 0 <= i < rules.len() ==> accepts(#[trigger] rules[i], expected, actual)
    }
}

/// The end of the run of digits in `d` that starts at `from`.
fn digits_end(d: &Vec<char>, from: usize) -> (k: usize)
    requires
        from <= d.len(),
    ensures
        from <= k <= d.len(),
        text::all_digits(d@.subrange(from as int, k as int)),
        k < d.len() ==> !text::is_digit(d@[k as int]),
{
    let mut k = from;
    while k < d.len() && '0' <= d[k] && d[k] <= '9'
        invariant
            from <= k <= d.len(),
            text::all_digits(d@.subrange(from as int, k as int)),
        decreases d.len() - k,
    {
        assert(d@.subrange(from as int, k + 1) =~= d@.subrange(from as int, k as int).push(d@[k as int]));
        k += 1;
    }
    k
}

fn unsigned_chars(s: &Vec<char>) -> (d: Vec<char>)
    ensures
        d@ == unsigned_part(s@),
{
    if s.len() > 0 && s[0] == '-' {
        let d = text::sub_chars(s, 1, s.len());
        assert(d@ =~= s@.skip(1));
        d
    } else {
        text::sub_chars(s, 0, s.len())
    }
}

/// Whether `s` writes an integer.
pub fn is_integer_chars(s: &Vec<char>) -> (b: bool)
    ensures
        b == is_integer_text(s@),
{
    let d = unsigned_chars(s);
    let k = digits_end(&d, 0);
    assert(d@.subrange(0, k as int) =~= d@.take(k as int));
    if k == d.len() && k > 0 {
        assert(d@.take(k as int) =~= d@);
        true
    } else {
        if k < d.len() {
            assert(!text::is_digit(d@[k as int]));
        }
        false
    }
}

/// Whether `s` writes a decimal number with a fractional part.
pub fn is_decimal_chars(s: &Vec<char>) -> (b: bool)
    ensures
        b == is_decimal_text(s@),
{
    let d = unsigned_chars(s);
    let k = digits_end(&d, 0);
    assert(d@.subrange(0, k as int) =~= d@.take(k as int));
    if k < d.len() {
        assert(!text::is_digit(d@[k as int]));
    }
    let ok = if k < d.len() && 0 < k && k + 1 < d.len() && d[k] == '.' {
        let m = digits_end(&d, k + 1);
        assert(d@.subrange(k + 1, m as int) =~= d@.skip(k + 1).take(m - (k + 1)));
        if m == d.len() {
            assert(d@.subrange(k + 1, m as int) =~= d@.skip(k + 1));
            assert(point_at(d@, k as int));
            true
        } else {
            assert(!text::is_digit(d@.skip(k + 1)[m - (k + 1)]));
            false
        }
    } else {
        false
    };
    if !ok {
        assert forall|j: int| !point_at(d@, j) by {
            if point_at(d@, j) {
                if j < k {
                    assert(d@.take(k as int)[j] == d@[j]);
                } else if j > k {
                    assert(d@.take(j)[k as int] == d@[k as int]);
                } else {
                    assert(d@.skip(k + 1)[0] == d@[k + 1]);
                    assert(text::is_digit(d@.skip(k + 1)[0]));
                }
            }
        }
    }
    ok
}

/// Whether `p` occurs at position `i` of `s`.
fn occurs_at_chars(s: &Vec<char>, p: &Vec<char>, i: usize) -> (b: bool)
    requires
        i + p.len() <= s.len(),
    ensures
        b == occurs_at(s@, p@, i as int),
{
    let mut j: usize = 0;
    while j < p.len()
        invariant
            j <= p.len(),
            i + p.len() <= s.len(),
            s@.subrange(i as int, i + j) == p@.take(j as int),
        decreases p.len() - j,
    {
        if s[i + j] != p[j] {
            assert(s@.subrange(i as int, i + p.len())[j as int] != p@[j as int]);
            return false;
        }
        assert(s@.subrange(i as int, i + j + 1) =~= s@.subrange(i as int, i + j).push(s@[i + j]));
        assert(p@.take(j + 1) =~= p@.take(j as int).push(p@[j as int]));
        j += 1;
    }
    assert(p@.take(p.len() as int) =~= p@);
    true
}

/// Whether `p` occurs somewhere in `s`.
pub fn contains_chars(s: &Vec<char>, p: &Vec<char>) -> (b: bool)
    ensures
        b == contains_text(s@, p@),
{
    if p.len() > s.len() {
        return false;
    }
    let last = s.len() - p.len();
    let mut i: usize = 0;
    while i <= last
        invariant
            last + p.len() == s.len(),
            i <= last,
            forall|j: int| 0 <= j < i ==> !occurs_at(s@, p@, j),
        ensures
            forall|j: int| 0 <= j <= last ==> !occurs_at(s@, p@, j),
        decreases last + 1 - i,
    {
        if occurs_at_chars(s, p, i) {
            return true;
        }
        if i == last {
            break;
        }
        i += 1;
    }
    assert forall|j: int| !occurs_at(s@, p@, j) by {
        if occurs_at(s@, p@, j) {
            assert(j <= last);
        }
    }
    false
}

fn is_text(s: &String, lit: &str) -> (b: bool)
    ensures
        b == (s@ == lit@),
{
    let a = text::chars_of(s.as_str());
    let b = text::chars_of(lit);
    if a.len() != b.len() {
        return false;
    }
    let same = occurs_at_chars(&a, &b, 0);
    if same {
        assert(a@.subrange(0, b.len() as int) =~= a@);
    } else {
        assert(a@.subrange(0, b.len() as int) =~= a@);
    }
    same
}

/// Whether `rule` accepts `actual` where `expected` was expected.
pub fn rule_accepts(rule: &MatchRule, expected: &String, actual: &String) -> (b: bool)
    ensures
        b == accepts(rule@, expected@, actual@),
{
    match rule {
        MatchRule::Equality => *actual == *expected,
        MatchRule::Regex(p) => match regex_is_match(p.as_str(), actual.as_str()) {
            Some(m) => m,
            None => false,
        },
        MatchRule::Type => true,
        MatchRule::Number => {
            let a = text::chars_of(actual.as_str());
            is_integer_chars(&a) || is_decimal_chars(&a)
        },
        MatchRule::Integer => is_integer_chars(&text::chars_of(actual.as_str())),
        MatchRule::Decimal => is_decimal_chars(&text::chars_of(actual.as_str())),
        MatchRule::Boolean => is_text(actual, "true") || is_text(actual, "false"),
        MatchRule::NotEmpty => text::chars_of(actual.as_str()).len() > 0,
        MatchRule::Date(f) => datetime_accepts(actual, f),
        MatchRule::Time(f) => datetime_accepts(actual, f),
        MatchRule::Timestamp(f) => datetime_accepts(actual, f),
        MatchRule::Include(v) => contains_chars(
            &text::chars_of(actual.as_str()),
            &text::chars_of(v.as_str()),
        ),
        MatchRule::Other => *actual == *expected,
    }
}

/// Whether `actual` matches `expected` under `rules`, as `value_matches` says.
pub fn value_matches_rules(rules: &Vec<MatchRule>, expected: &String, actual: &String) -> (b: bool)
    ensures
        b == value_matches(rules_view(rules@), expected@, actual@),
{
    let ghost rv = rules_view(rules@);
    if rules.len() == 0 {
        return *actual == *expected;
    }
    let mut i: usize = 0;
    while i < rules.len()
        invariant
            i <= rules.len(),
            rv == rules_view(rules@),
            forall|j: int| 0 <= j < i ==> accepts(#[trigger] rv[j], expected@, actual@),
        decreases rules.len() - i,
    {
        if !rule_accepts(&rules[i], expected, actual) {
            assert(!accepts(rv[i as int], expected@, actual@));
            return false;
        }
        i += 1;
    }
    true
}


// ---------------------------------------------------------------------------
// Laws of the rules
// ---------------------------------------------------------------------------

/// Law: without rules, a value matches exactly when it equals the expected one.
pub proof fn lemma_no_rules_means_equality(expected: Seq<char>, actual: Seq<char>)
    ensures
        value_matches(Seq::<RuleView>::empty(), expected, actual) <==> actual == expected,
{
}

/// Law: under a list of rules, a value matches exactly when every rule of the
/// list accepts it; one rule that refuses it is enough to refuse it.
pub proof fn lemma_every_rule_must_accept(rules: Seq<RuleView>, expected: Seq<char>, actual: Seq<char>, i: int)
    requires
        0 <= i < rules.len(),
        !accepts(rules[i], expected, actual),
    ensures
        !value_matches(rules, expected, actual),
{
}

/// Law: the kind named under `match` decides the rule built from a JSON form:
/// each kind gives its own rule, with the pattern, format or value of the form.
pub proof fn lemma_rule_of_form_kinds(form: Seq<(Seq<char>, AttributeView)>, kind: Seq<char>)
    requires
        text_attribute(form, "match"@) == Some(kind),
    ensures
        kind == "equality"@ ==> rule_of_form(form) == RuleView::Equality,
        kind == "regex"@ ==> match text_attribute(form, "regex"@) {
            Some(p) => rule_of_form(form) == RuleView::Regex(p),
            None => rule_of_form(form) == RuleView::Other,
        },
        kind == "type"@ ==> rule_of_form(form) == RuleView::Type,
        kind == "number"@ ==> rule_of_form(form) == RuleView::Number,
        kind == "integer"@ ==> rule_of_form(form) == RuleView::Integer,
        kind == "decimal"@ ==> rule_of_form(form) == RuleView::Decimal,
        kind == "boolean"@ ==> rule_of_form(form) == RuleView::Boolean,
        kind == "notEmpty"@ ==> rule_of_form(form) == RuleView::NotEmpty,
        kind == "date"@ ==> rule_of_form(form) == RuleView::Date(text_or_empty(form, "format"@)),
        kind == "time"@ ==> rule_of_form(form) == RuleView::Time(text_or_empty(form, "format"@)),
        kind == "datetime"@ ==> rule_of_form(form) == RuleView::Timestamp(text_or_empty(form, "format"@)),
        kind == "include"@ ==> rule_of_form(form) == RuleView::Include(text_or_empty(form, "value"@)),
{
    reveal_strlit("equality");
    reveal_strlit("regex");
    reveal_strlit("type");
    reveal_strlit("number");
    reveal_strlit("integer");
    reveal_strlit("decimal");
    reveal_strlit("boolean");
    reveal_strlit("notEmpty");
    reveal_strlit("date");
    reveal_strlit("time");
    reveal_strlit("datetime");
    reveal_strlit("include");
    if kind == "equality"@ {
        assert(kind.len() == 8);
    }
    if kind == "regex"@ {
        assert(kind.len() == 5);
        assert(kind != "equality"@);
    }
    if kind == "type"@ {
        assert(kind.len() == 4);
        assert(kind != "equality"@);
        assert(kind != "regex"@);
    }
    if kind == "number"@ {
        assert(kind.len() == 6);
        assert(kind != "equality"@);
        assert(kind != "regex"@);
        assert(kind != "type"@);
    }
    if kind == "integer"@ {
        assert(kind.len() == 7);
        assert(kind != "equality"@);
        assert(kind != "regex"@);
        assert(kind != "type"@);
        assert(kind != "number"@);
    }
    if kind == "decimal"@ {
        assert(kind.len() == 7);
        assert(kind != "equality"@);
        assert(kind != "regex"@);
        assert(kind != "type"@);
        assert(kind != "number"@);
        assert(kind[0] == 'd' && "integer"@[0] == 'i');
        assert(kind != "integer"@);
    }
    if kind == "boolean"@ {
        assert(kind.len() == 7);
        assert(kind != "equality"@);
        assert(kind != "regex"@);
        assert(kind != "type"@);
        assert(kind != "number"@);
        assert(kind[0] == 'b' && "integer"@[0] == 'i');
        assert(kind != "integer"@);
        assert(kind[0] == 'b' && "decimal"@[0] == 'd');
        assert(kind != "decimal"@);
    }
    if kind == "notEmpty"@ {
        assert(kind.len() == 8);
        assert(kind[0] == 'n' && "equality"@[0] == 'e');
        assert(kind != "equality"@);
        assert(kind != "regex"@);
        assert(kind != "type"@);
        assert(kind != "number"@);
        assert(kind != "integer"@);
        assert(kind != "decimal"@);
        assert(kind != "boolean"@);
    }
    if kind == "date"@ {
        assert(kind.len() == 4);
        assert(kind != "equality"@);
        assert(kind != "regex"@);
        assert(kind[0] == 'd' && "type"@[0] == 't');
        assert(kind != "type"@);
        assert(kind != "number"@);
        assert(kind != "integer"@);
        assert(kind != "decimal"@);
        assert(kind != "boolean"@);
        assert(kind != "notEmpty"@);
    }
    if kind == "time"@ {
        assert(kind.len() == 4);
        assert(kind != "equality"@);
        assert(kind != "regex"@);
        assert(kind[1] == 'i' && "type"@[1] == 'y');
        assert(kind != "type"@);
        assert(kind != "number"@);
        assert(kind != "integer"@);
        assert(kind != "decimal"@);
        assert(kind != "boolean"@);
        assert(kind != "notEmpty"@);
        assert(kind[0] == 't' && "date"@[0] == 'd');
        assert(kind != "date"@);
    }
    if kind == "datetime"@ {
        assert(kind.len() == 8);
        assert(kind[0] == 'd' && "equality"@[0] == 'e');
        assert(kind != "equality"@);
        assert(kind != "regex"@);
        assert(kind != "type"@);
        assert(kind != "number"@);
        assert(kind != "integer"@);
        assert(kind != "decimal"@);
        assert(kind != "boolean"@);
        assert(kind[0] == 'd' && "notEmpty"@[0] == 'n');
        assert(kind != "notEmpty"@);
        assert(kind != "date"@);
        assert(kind != "time"@);
    }
    if kind == "include"@ {
        assert(kind.len() == 7);
        assert(kind != "equality"@);
        assert(kind != "regex"@);
        assert(kind != "type"@);
        assert(kind != "number"@);
        assert(kind[2] == 'c' && "integer"@[2] == 't');
        assert(kind != "integer"@);
        assert(kind[0] == 'i' && "decimal"@[0] == 'd');
        assert(kind != "decimal"@);
        assert(kind[0] == 'i' && "boolean"@[0] == 'b');
        assert(kind != "boolean"@);
        assert(kind != "notEmpty"@);
        assert(kind != "date"@);
        assert(kind != "time"@);
        assert(kind != "datetime"@);
    }
}

/// `d` is a non-empty run of decimal digits.
pub open spec fn digit_run(d: Seq<char>) -> bool {
    d.len() > 0 && forall|i: int| 0 <= i < d.len() ==> '0' <= #[trigger] d[i] <= '9'
}

proof fn lemma_digit_run_not_decimal(d: Seq<char>)
    requires
        digit_run(d),
    ensures
        !is_decimal_text(d),
        is_integer_text(d),
{
    assert(unsigned_part(d) == d);
    assert forall|k: int| !point_at(d, k) by {
        if 0 < k < d.len() - 1 {
            assert('0' <= d[k] <= '9');
        }
    }
}

proof fn lemma_point_text_is_decimal(d1: Seq<char>, d2: Seq<char>)
    requires
        digit_run(d1),
        digit_run(d2),
    ensures
        is_decimal_text(d1 + seq!['.'] + d2),
        !is_integer_text(d1 + seq!['.'] + d2),
{
    let s = d1 + seq!['.'] + d2;
    assert(s[0] == d1[0]);
    assert(unsigned_part(s) == s);
    let k = d1.len() as int;
    assert(s.take(k) =~= d1);
    assert(s.skip(k + 1) =~= d2);
    assert(s[k] == '.');
    assert(point_at(s, k));
    assert(!text::is_digit(s[k]));
}

/// Law: the decimal rule accepts digits, a point and digits, and refuses a
/// plain integer; the integer rule does the opposite; the number rule accepts
/// both. None of them looks at the expected value.
pub proof fn lemma_number_rules(expected: Seq<char>, d1: Seq<char>, d2: Seq<char>)
    requires
        digit_run(d1),
        digit_run(d2),
    ensures
        accepts(RuleView::Decimal, expected, d1 + seq!['.'] + d2),
        !accepts(RuleView::Decimal, expected, d1),
        accepts(RuleView::Integer, expected, d1),
        !accepts(RuleView::Integer, expected, d1 + seq!['.'] + d2),
        accepts(RuleView::Number, expected, d1),
        accepts(RuleView::Number, expected, d1 + seq!['.'] + d2),
        accepts(RuleView::Integer, expected, seq!['-'] + d1),
        !accepts(RuleView::Number, expected, Seq::<char>::empty()),
{
    lemma_digit_run_not_decimal(d1);
    lemma_point_text_is_decimal(d1, d2);
    let m = seq!['-'] + d1;
    assert(unsigned_part(m) =~= d1);
    assert(unsigned_part(Seq::<char>::empty()) == Seq::<char>::empty());
    assert forall|k: int| !point_at(Seq::<char>::empty(), k) by {}
}

/// Law: a rule for a decimal number, built from a form whose kind is
/// `decimal`, accepts `1.5`-like values and refuses integers.
pub proof fn lemma_decimal_form_rule(form: Seq<(Seq<char>, AttributeView)>, expected: Seq<char>, d1: Seq<char>, d2: Seq<char>)
    requires
        text_attribute(form, "match"@) == Some("decimal"@),
        digit_run(d1),
        digit_run(d2),
    ensures
        accepts(rule_of_form(form), expected, d1 + seq!['.'] + d2),
        !accepts(rule_of_form(form), expected, d1),
{
    lemma_rule_of_form_kinds(form, "decimal"@);
    lemma_number_rules(expected, d1, d2);
}

/// Law: the date, time and date-time rules accept exactly the values that
/// Pact's date and time validation accepts in their format, where the format
/// is one it can check, and nothing otherwise.
pub proof fn lemma_datetime_rules(format: Seq<char>, expected: Seq<char>, actual: Seq<char>)
    ensures
        accepts(RuleView::Date(format), expected, actual) ==> datetime_matches(actual, format),
        accepts(RuleView::Time(format), expected, actual) ==> datetime_matches(actual, format),
        accepts(RuleView::Timestamp(format), expected, actual) ==> datetime_matches(actual, format),
        datetime_format_safe(format) && datetime_matches(actual, format) ==> accepts(
            RuleView::Date(format),
            expected,
            actual,
        ) && accepts(RuleView::Time(format), expected, actual) && accepts(
            RuleView::Timestamp(format),
            expected,
            actual,
        ),
        !datetime_format_safe(format) ==> !accepts(RuleView::Date(format), expected, actual),
{
}

/// Law: the regular expression rule accepts a value exactly when the pattern
/// compiles and matches it; the include rule accepts every value that holds
/// its text; the type rule accepts every value; equality accepts only the
/// expected value.
pub proof fn lemma_text_rules(p: Seq<char>, expected: Seq<char>, actual: Seq<char>, x: Seq<char>, y: Seq<char>)
    ensures
        accepts(RuleView::Regex(p), expected, actual) <==> regex_match(p, actual) == Some(true),
        accepts(RuleView::Include(p), expected, x + p + y),
        accepts(RuleView::Type, expected, actual),
        accepts(RuleView::Equality, expected, actual) <==> actual == expected,
        accepts(RuleView::Other, expected, actual) <==> actual == expected,
        accepts(RuleView::NotEmpty, expected, actual) <==> actual.len() > 0,
{
    let s = x + p + y;
    assert(s.subrange(x.len() as int, (x.len() + p.len()) as int) =~= p);
    assert(occurs_at(s, p, x.len() as int));
}

/// Law: the include rule accepts only values at least as long as its text
/// that hold it somewhere; the boolean rule accepts exactly `true` and `false`.
pub proof fn lemma_include_and_boolean_rules(p: Seq<char>, expected: Seq<char>, actual: Seq<char>)
    ensures
        accepts(RuleView::Include(p), expected, actual) ==> p.len() <= actual.len() && exists|i: int|
            0 <= i && i + p.len() <= actual.len() && #[trigger] actual.subrange(i, i + p.len()) == p,
        accepts(RuleView::Boolean, expected, actual) <==> (actual == "true"@ || actual == "false"@),
{
}

/// `f` holds five equal characters in a row, from position `i`.
pub open spec fn five_same(f: Seq<char>, i: int) -> bool {
    0 <= i && i + 5 <= f.len() && f[i] == f[i + 1] && f[i] == f[i + 2] && f[i] == f[i + 3] && f[i]
        == f[i + 4]
}

/// Law: a date and time format that Pact can check: one without a day of the
/// month, or one without five equal letters in a row. A format with a day and
/// five `y` in a row is not one.
pub proof fn lemma_safe_datetime_formats(f: Seq<char>, d: int, y: int)
    ensures
        0 <= d < f.len() && f[d] == 'd' && 0 <= y && y + 5 <= f.len() && f[y] == 'y' && f[y + 1] == 'y'
            && f[y + 2] == 'y' && f[y + 3] == 'y' && f[y + 4] == 'y' ==> !datetime_format_safe(f),
        (forall|i: int| 0 <= i < f.len() ==> f[i] != 'd') ==> datetime_format_safe(f),
        (forall|i: int| !#[trigger] five_same(f, i)) ==> datetime_format_safe(f),
{
    if 0 <= d < f.len() && f[d] == 'd' && 0 <= y && y + 5 <= f.len() && f[y] == 'y' && f[y + 1] == 'y'
        && f[y + 2] == 'y' && f[y + 3] == 'y' && f[y + 4] == 'y' {
        assert(run_of_five(f, 'y', y));
        assert(long_year_at(f, y));
    }
    if forall|i: int| !#[trigger] five_same(f, i) {
        assert forall|i: int| !long_year_at(f, i) by {
            if long_year_at(f, i) {
                assert(five_same(f, i));
            }
        }
    }
}

} // verus!
