//! What the plugin answers to each request of the Pact plugin protocol: the
//! catalogue it offers, the comparison of SSE bodies, the contents it configures
//! and generates, and the answers about its mock servers.
use vstd::prelude::*;

use crate::json;
use crate::rules;
use crate::rules::{AttributeValue, AttributeView, MatchRule, RuleView};
use crate::sse_content;
use crate::sse_content::{ContentMismatch, SseEvent};
use crate::text;

verus! {

// ---------------------------------------------------------------------------
// Messages
// ---------------------------------------------------------------------------

/// How a body's content type is to be read.
pub enum ContentTypeHint {
    Default,
    Text,
    Binary,
}

/// A request, response or message body.
pub struct Body {
    pub content_type: String,
    pub content: Option<Vec<u8>>,
    pub content_type_hint: ContentTypeHint,
}

/// The kinds of catalogue entries.
pub enum EntryType {
    ContentMatcher,
    ContentGenerator,
    Transport,
    Matcher,
    Interaction,
}

/// A feature that the plugin offers.
pub struct CatalogueEntry {
    pub entry_type: EntryType,
    pub key: String,
    pub values: Vec<(String, String)>,
}

/// The answer to the plugin's initialisation: its catalogue.
pub struct InitPluginResponse {
    pub catalogue: Vec<CatalogueEntry>,
}

/// The mismatches of a comparison, by matching rule expression.
pub struct CompareContentsResponse {
    pub error: String,
    pub results: Vec<(String, Vec<ContentMismatch>)>,
}

/// A matching rule as the plugin protocol carries it: the rule's type and its
/// attributes, if it has any (each a string, or the JSON text of another
/// value).
#[derive(Clone, Debug)]
pub struct RuleRequest {
    pub rule_type: String,
    pub values: Option<Vec<(String, AttributeValue)>>,
}

/// How an interaction's markup is written.
pub enum MarkupType {
    CommonMark,
    Html,
}

/// One part of a configured interaction.
pub struct InteractionResponse {
    pub contents: Option<Body>,
    /// The matching rules of the contents, by path.
    pub rules: Vec<(String, Vec<RuleRequest>)>,
    pub interaction_markup: String,
    pub interaction_markup_type: MarkupType,
    pub part_name: String,
}

/// The answer to the configuration of an interaction.
pub struct ConfigureInteractionResponse {
    pub error: String,
    pub interaction: Vec<InteractionResponse>,
}

/// The answer to a request to generate contents.
pub struct GenerateContentResponse {
    pub contents: Option<Body>,
}

/// The data needed to verify an interaction.
pub struct InteractionData {
    pub body: Option<Body>,
}

pub open spec fn event_stream_type() -> Seq<char> {
    "text/event-stream"@
}

pub open spec fn body_content(b: Option<Body>) -> Option<Option<Seq<u8>>> {
    match b {
        Some(body) => Some(sse_content::opt_bytes(body.content)),
        None => None,
    }
}

pub open spec fn results_view(r: Seq<(String, Vec<ContentMismatch>)>) -> Seq<
    (Seq<char>, Seq<sse_content::ContentMismatchView>),
> {
    r.map_values(
        |e: (String, Vec<ContentMismatch>)| (e.0@, sse_content::mismatches_view(e.1@)),
    )
}

fn event_stream_body(content: Option<Vec<u8>>) -> (b: Body)
    ensures
        b.content_type@ == event_stream_type(),
        b.content == content,
        b.content_type_hint == ContentTypeHint::Default,
{
    Body {
        content_type: String::from_str("text/event-stream"),
        content: content,
        content_type_hint: ContentTypeHint::Default,
    }
}

// ---------------------------------------------------------------------------
// The catalogue
// ---------------------------------------------------------------------------

/// The catalogue entries the plugin registers: an `sse` transport, and an `sse`
/// content matcher and generator for `text/event-stream`.
pub fn init_plugin() -> (r: InitPluginResponse)
    ensures
        r.catalogue@.len() == 3,
        r.catalogue@[0].entry_type == EntryType::Transport,
        r.catalogue@[1].entry_type == EntryType::ContentMatcher,
        r.catalogue@[2].entry_type == EntryType::ContentGenerator,
        forall|i: int| 0 <= i < 3 ==> (#[trigger] r.catalogue@[i]).key@ == "sse"@,
        r.catalogue@[0].values@.len() == 0,
        forall|i: int|
            1 <= i < 3 ==> (#[trigger] r.catalogue@[i]).values@.len() == 1
                && r.catalogue@[i].values@[0].0@ == "content-types"@
                && r.catalogue@[i].values@[0].1@ == event_stream_type(),
{
    let transport = CatalogueEntry {
        entry_type: EntryType::Transport,
        key: String::from_str("sse"),
        values: Vec::new(),
    };
    let matcher = CatalogueEntry {
        entry_type: EntryType::ContentMatcher,
        key: String::from_str("sse"),
        values: vec![(String::from_str("content-types"), String::from_str("text/event-stream"))],
    };
    let generator = CatalogueEntry {
        entry_type: EntryType::ContentGenerator,
        key: String::from_str("sse"),
        values: vec![(String::from_str("content-types"), String::from_str("text/event-stream"))],
    };
    InitPluginResponse { catalogue: vec![transport, matcher, generator] }
}

// ---------------------------------------------------------------------------
// Comparing contents
// ---------------------------------------------------------------------------

/// The events an SSE content holds, where it is valid UTF-8.
pub open spec fn content_events(content: Seq<u8>) -> Seq<sse_content::SseEventView> {
    sse_content::parse_events(vstd::utf8::decode_utf8(content))
}

pub open spec fn unexpected_content_mismatch(actual: Seq<u8>) -> sse_content::ContentMismatchView {
    sse_content::ContentMismatchView {
        expected: None,
        actual: Some(actual),
        mismatch: "Expected no SSE content, but got "@ + text::decimal(actual.len()) + " bytes"@,
        path: Seq::<char>::empty(),
        diff: Seq::<char>::empty(),
        mismatch_type: "body"@,
    }
}

pub open spec fn missing_content_mismatch(expected: Seq<u8>) -> sse_content::ContentMismatchView {
    sse_content::ContentMismatchView {
        expected: Some(expected),
        actual: None,
        mismatch: "Expected SSE content, but did not get any"@,
        path: Seq::<char>::empty(),
        diff: Seq::<char>::empty(),
        mismatch_type: "body"@,
    }
}

/// The attributes a rule is built from: those it carries, and its type under
/// `match`. A rule without attributes is not built.
pub open spec fn rule_attributes(req: RuleRequest) -> Option<Seq<(Seq<char>, AttributeView)>> {
    match req.values {
        Some(v) => Some(rules::attributes_view(v@).push(("match"@, AttributeView::Text(req.rule_type@)))),
        None => None,
    }
}

/// A rule request that builds no rule: it has no attributes, or Pact builds
/// no rule from them.
pub open spec fn unusable(req: RuleRequest) -> bool {
    match rule_attributes(req) {
        Some(attrs) => rules::rule_form_of(attrs) is None,
        None => true,
    }
}

/// The rules that Pact builds from a list of rule requests, in order; those it
/// cannot build are left out.
pub open spec fn request_rules(reqs: Seq<RuleRequest>) -> Seq<RuleView>
    decreases reqs.len(),
{
    if reqs.len() == 0 {
        Seq::<RuleView>::empty()
    } else {
        let prev = request_rules(reqs.drop_last());
        match rule_attributes(reqs.last()) {
            Some(attrs) => match rules::rule_form_of(attrs) {
                Some(form) => prev.push(rules::rule_of_form(form)),
                None => prev,
            },
            None => prev,
        }
    }
}

/// The rules of a comparison by path, built from the requests under each path.
pub open spec fn rule_table(reqs: Seq<(String, Vec<RuleRequest>)>) -> Seq<(Seq<char>, Seq<RuleView>)> {
    reqs.map_values(|e: (String, Vec<RuleRequest>)| (e.0@, request_rules(e.1@)))
}

pub open spec fn parse_failure(which: Seq<char>) -> Seq<char> {
    "Failed to parse "@ + which + " SSE: "@ + "content is not valid UTF-8"@
}

/// The outcome of comparing an expected body with an actual one, each given by
/// its presence and its content: the mismatches by matching rule expression, or
/// the message with which the comparison is aborted.
pub open spec fn compare_contents_outcome(
    expected: Option<Option<Seq<u8>>>,
    actual: Option<Option<Seq<u8>>>,
    table: Seq<(Seq<char>, Seq<RuleView>)>,
) -> Result<Seq<(Seq<char>, Seq<sse_content::ContentMismatchView>)>, Seq<char>> {
    match (expected, actual) {
        (Some(ec), Some(ac)) => match ec {
            None => Err("No expected content"@),
            Some(eb) => match ac {
                None => Err("No actual content"@),
                Some(ab) => if !vstd::utf8::valid_utf8(eb) {
                    Err(parse_failure("expected"@))
                } else if !vstd::utf8::valid_utf8(ab) {
                    Err(parse_failure("actual"@))
                } else {
                    Ok(
                        seq![
                            (
                                Seq::<char>::empty(),
                                sse_content::compare_events(
                                    table,
                                    content_events(eb),
                                    content_events(ab),
                                ),
                            ),
                        ],
                    )
                },
            },
        },
        (None, Some(ac)) => Ok(
            seq![(Seq::<char>::empty(), seq![unexpected_content_mismatch(ac->0)])],
        ),
        (Some(ec), None) => Ok(seq![(Seq::<char>::empty(), seq![missing_content_mismatch(ec->0)])]),
        (None, None) => Ok(Seq::<(Seq<char>, Seq<sse_content::ContentMismatchView>)>::empty()),
    }
}

fn mismatch_list(m: ContentMismatch) -> (r: Vec<(String, Vec<ContentMismatch>)>)
    ensures
        results_view(r@) == seq![(Seq::<char>::empty(), seq![m@])],
{
    let r = vec![(String::new(), vec![m])];
    proof {
        let inner: Vec<ContentMismatch> = r@[0].1;
        assert(sse_content::mismatches_view(inner@) =~= seq![m@]);
        assert(results_view(r@) =~= seq![(Seq::<char>::empty(), seq![m@])]);
    }
    r
}

fn parse_failure_message(which: &str, e: &sse_content::SseParseError) -> (s: String)
    ensures
        s@ == "Failed to parse "@ + which@ + " SSE: "@ + "content is not valid UTF-8"@,
{
    let mut out: Vec<char> = Vec::new();
    text::push_str_chars(&mut out, "Failed to parse ");
    text::push_str_chars(&mut out, which);
    text::push_str_chars(&mut out, " SSE: ");
    let msg = e.message();
    text::push_str_chars(&mut out, msg.as_str());
    text::string_of(&out)
}

fn copy_text(s: &String) -> (r: String)
    ensures
        r@ == s@,
{
    s.clone()
}

fn copy_attribute(a: &AttributeValue) -> (r: AttributeValue)
    ensures
        r@ == a@,
{
    match a {
        AttributeValue::Text(t) => AttributeValue::Text(t.clone()),
        AttributeValue::Json(t) => AttributeValue::Json(t.clone()),
    }
}

/// A copy of a list of attributes.
fn copy_attributes(v: &Vec<(String, AttributeValue)>) -> (r: Vec<(String, AttributeValue)>)
    ensures
        rules::attributes_view(r@) == rules::attributes_view(v@),
{
    let mut r: Vec<(String, AttributeValue)> = Vec::new();
    let mut i: usize = 0;
    while i < v.len()
        invariant
            i <= v.len(),
            rules::attributes_view(r@) == rules::attributes_view(v@.take(i as int)),
        decreases v.len() - i,
    {
        let ghost before = r@;
        r.push((v[i].0.clone(), copy_attribute(&v[i].1)));
        assert(rules::attributes_view(r@) =~= rules::attributes_view(before).push((v@[i as int].0@, v@[i as int].1@)));
        assert(v@.take(i + 1) =~= v@.take(i as int).push(v@[i as int]));
        assert(rules::attributes_view(v@.take(i + 1)) =~= rules::attributes_view(v@.take(i as int)).push((v@[i as int].0@, v@[i as int].1@)));
        i += 1;
    }
    assert(v@.take(v.len() as int) =~= v@);
    r
}

/// The rules built from a list of rule requests, as `request_rules` says.
fn build_rules(reqs: &Vec<RuleRequest>) -> (r: Vec<MatchRule>)
    ensures
        rules::rules_view(r@) == request_rules(reqs@),
{
    let mut r: Vec<MatchRule> = Vec::new();
    let mut i: usize = 0;
    while i < reqs.len()
        invariant
            i <= reqs.len(),
            rules::rules_view(r@) == request_rules(reqs@.take(i as int)),
        decreases reqs.len() - i,
    {
        assert(reqs@.take(i + 1).drop_last() =~= reqs@.take(i as int));
        assert(reqs@.take(i + 1).last() == reqs@[i as int]);
        match &reqs[i].values {
            Some(v) => {
                let mut attrs = copy_attributes(v);
                let ghost copied = attrs@;
                attrs.push((String::from_str("match"), AttributeValue::Text(copy_text(&reqs[i].rule_type))));
                assert(rules::attributes_view(attrs@) =~= rules::attributes_view(copied).push(
                    ("match"@, AttributeView::Text(reqs@[i as int].rule_type@)),
                ));
                match rules::rule_from_attributes(&attrs) {
                    Some(form) => {
                        let rule = rules::rule_of_form_attributes(&form);
                        let ghost before = r@;
                        r.push(rule);
                        assert(rules::rules_view(r@) =~= rules::rules_view(before).push(rule@));
                    },
                    None => {},
                }
            },
            None => {},
        }
        i += 1;
    }
    assert(reqs@.take(reqs.len() as int) =~= reqs@);
    r
}

/// The rules of a comparison by path, as `rule_table` says.
pub fn build_rule_table(reqs: &Vec<(String, Vec<RuleRequest>)>) -> (t: Vec<(String, Vec<MatchRule>)>)
    ensures
        sse_content::rule_table_view(t@) == rule_table(reqs@),
{
    let mut t: Vec<(String, Vec<MatchRule>)> = Vec::new();
    let mut i: usize = 0;
    while i < reqs.len()
        invariant
            i <= reqs.len(),
            sse_content::rule_table_view(t@) == rule_table(reqs@.take(i as int)),
        decreases reqs.len() - i,
    {
        let key = copy_text(&reqs[i].0);
        let list = build_rules(&reqs[i].1);
        let ghost before = t@;
        t.push((key, list));
        assert(sse_content::rule_table_view(t@) =~= sse_content::rule_table_view(before).push(
            (reqs@[i as int].0@, request_rules(reqs@[i as int].1@)),
        ));
        assert(rule_table(reqs@.take(i + 1)) =~= rule_table(reqs@.take(i as int)).push(
            (reqs@[i as int].0@, request_rules(reqs@[i as int].1@)),
        ));
        i += 1;
    }
    assert(reqs@.take(reqs.len() as int) =~= reqs@);
    t
}

/// Compares the expected body of an interaction with the actual one under the
/// matching rules of the request, given by path. Both contents are read as SSE
/// streams and each expected event is looked for among the actual ones; a body
/// that is present on one side only gives one mismatch; an absent content, or
/// one that is not UTF-8, aborts the comparison with a message.
pub fn compare_contents(
    expected: &Option<Body>,
    actual: &Option<Body>,
    rules: &Vec<(String, Vec<RuleRequest>)>,
) -> (r: Result<
    CompareContentsResponse,
    String,
>)
    requires
        expected is None ==> (actual matches Some(a) ==> a.content is Some),
        actual is None ==> (expected matches Some(e) ==> e.content is Some),
    ensures
        match r {
            Ok(resp) => resp.error@.len() == 0 && compare_contents_outcome(
                body_content(*expected),
                body_content(*actual),
                rule_table(rules@),
            ) == Ok::<_, Seq<char>>(results_view(resp.results@)),
            Err(msg) => compare_contents_outcome(
                body_content(*expected),
                body_content(*actual),
                rule_table(rules@),
            ) == Err::<Seq<(Seq<char>, Seq<sse_content::ContentMismatchView>)>, _>(msg@),
        },
{
    match (expected, actual) {
        (Some(e), Some(a)) => {
            let expected_content = match &e.content {
                Some(c) => c,
                None => {
                    return Err(String::from_str("No expected content"));
                },
            };
            let actual_content = match &a.content {
                Some(c) => c,
                None => {
                    return Err(String::from_str("No actual content"));
                },
            };
            let expected_events = match sse_content::parse_sse_content(expected_content.as_slice()) {
                Ok(es) => es,
                Err(err) => {
                    return Err(parse_failure_message("expected", &err));
                },
            };
            let actual_events = match sse_content::parse_sse_content(actual_content.as_slice()) {
                Ok(es) => es,
                Err(err) => {
                    return Err(parse_failure_message("actual", &err));
                },
            };
            let table = build_rule_table(rules);
            let mismatches = sse_content::compare_sse_events(&expected_events, &actual_events, &table);
            let results = vec![(String::new(), mismatches)];
            proof {
                assert(results_view(results@) =~= seq![
                    (Seq::<char>::empty(), sse_content::mismatches_view(mismatches@)),
                ]);
            }
            Ok(CompareContentsResponse { error: String::new(), results })
        },
        (None, Some(a)) => {
            let contents = match &a.content {
                Some(c) => c,
                None => vstd::pervasive::unreached(),
            };
            let mut msg: Vec<char> = Vec::new();
            text::push_str_chars(&mut msg, "Expected no SSE content, but got ");
            text::push_decimal(&mut msg, contents.len() as u64);
            text::push_str_chars(&mut msg, " bytes");
            let m = ContentMismatch {
                expected: None,
                actual: Some(text::copy_bytes(contents)),
                mismatch: text::string_of(&msg),
                path: String::new(),
                diff: String::new(),
                mismatch_type: String::from_str("body"),
            };
            assert(m@ == unexpected_content_mismatch(contents@));
            Ok(CompareContentsResponse { error: String::new(), results: mismatch_list(m) })
        },
        (Some(e), None) => {
            let contents = match &e.content {
                Some(c) => c,
                None => vstd::pervasive::unreached(),
            };
            let m = ContentMismatch {
                expected: Some(text::copy_bytes(contents)),
                actual: None,
                mismatch: String::from_str("Expected SSE content, but did not get any"),
                path: String::new(),
                diff: String::new(),
                mismatch_type: String::from_str("body"),
            };
            assert(m@ == missing_content_mismatch(contents@));
            Ok(CompareContentsResponse { error: String::new(), results: mismatch_list(m) })
        },
        (None, None) => {
            let results: Vec<(String, Vec<ContentMismatch>)> = Vec::new();
            assert(results_view(results@) =~= Seq::<
                (Seq<char>, Seq<sse_content::ContentMismatchView>),
            >::empty());
            Ok(CompareContentsResponse { error: String::new(), results })
        },
    }
}

proof fn lemma_request_rules_concat(a: Seq<RuleRequest>, b: Seq<RuleRequest>)
    ensures
        request_rules(a + b) == request_rules(a) + request_rules(b),
    decreases b.len(),
{
    if b.len() == 0 {
        assert(a + b =~= a);
        assert(request_rules(a) + request_rules(b) =~= request_rules(a));
    } else {
        lemma_request_rules_concat(a, b.drop_last());
        assert((a + b).drop_last() =~= a + b.drop_last());
        assert((a + b).last() == b.last());
        let x = request_rules(a);
        let y = request_rules(b.drop_last());
        match rule_attributes(b.last()) {
            Some(attrs) => match rules::rule_form_of(attrs) {
                Some(form) => {
                    assert((x + y).push(rules::rule_of_form(form)) =~= x + y.push(rules::rule_of_form(form)));
                },
                None => {},
            },
            None => {},
        }
    }
}

/// Law: a rule request from whose attributes Pact builds a rule adds that
/// rule to its path's list, at its own place.
pub proof fn lemma_usable_rule_used(a: Seq<RuleRequest>, r: RuleRequest, b: Seq<RuleRequest>)
    requires
        !unusable(r),
    ensures
        request_rules(a + seq![r] + b) == request_rules(a) + seq![
            rules::rule_of_form(rules::rule_form_of(rule_attributes(r)->0)->0),
        ] + request_rules(b),
{
    lemma_request_rules_concat(a + seq![r], b);
    lemma_request_rules_concat(a, seq![r]);
    assert(seq![r].drop_last() =~= Seq::<RuleRequest>::empty());
    assert(seq![r].last() == r);
    assert(request_rules(Seq::<RuleRequest>::empty()) =~= Seq::<RuleView>::empty());
    assert(request_rules(seq![r]) =~= seq![rules::rule_of_form(rules::rule_form_of(rule_attributes(r)->0)->0)]) by {
        assert(request_rules(seq![r].drop_last()) =~= Seq::<RuleView>::empty());
    }
}

/// Law: a rule request that builds no rule (one without attributes, or one
/// whose attributes Pact builds no rule from) changes nothing in a comparison,
/// wherever it is added to the rules of a path.
pub proof fn lemma_unusable_rule_ignored(
    reqs: Seq<(String, Vec<RuleRequest>)>,
    k: int,
    list: Vec<RuleRequest>,
    i: int,
    extra: RuleRequest,
    expected: Option<Option<Seq<u8>>>,
    actual: Option<Option<Seq<u8>>>,
)
    requires
        0 <= k < reqs.len(),
        0 <= i <= reqs[k].1@.len(),
        list@ == reqs[k].1@.insert(i, extra),
        unusable(extra),
    ensures
        compare_contents_outcome(expected, actual, rule_table(reqs.update(k, (reqs[k].0, list))))
            == compare_contents_outcome(expected, actual, rule_table(reqs)),
{
    let before = reqs[k].1@;
    let front = before.take(i);
    let back = before.skip(i);
    assert(before.insert(i, extra) =~= front + seq![extra] + back);
    assert(front + back =~= before);
    lemma_request_rules_concat(front + seq![extra], back);
    lemma_request_rules_concat(front, seq![extra]);
    lemma_request_rules_concat(front, back);
    assert(seq![extra].drop_last() =~= Seq::<RuleRequest>::empty());
    assert(seq![extra].last() == extra);
    assert(request_rules(Seq::<RuleRequest>::empty()) =~= Seq::<RuleView>::empty());
    assert(request_rules(seq![extra]) =~= Seq::<RuleView>::empty()) by {
        assert(request_rules(seq![extra].drop_last()) =~= Seq::<RuleView>::empty());
    }
    assert(request_rules(front) + Seq::<RuleView>::empty() =~= request_rules(front));
    assert(request_rules(list@) == request_rules(before));
    assert(rule_table(reqs.update(k, (reqs[k].0, list))) =~= rule_table(reqs));
}

/// Law: comparing a valid SSE content with itself, without matching rules,
/// finds no mismatch.
pub proof fn lemma_compare_same_content(content: Seq<u8>)
    requires
        vstd::utf8::valid_utf8(content),
    ensures
        compare_contents_outcome(
            Some(Some(content)),
            Some(Some(content)),
            Seq::<(Seq<char>, Seq<RuleView>)>::empty(),
        ) == Ok::<
            _,
            Seq<char>,
        >(seq![(Seq::<char>::empty(), Seq::<sse_content::ContentMismatchView>::empty())]),
{
    let es = content_events(content);
    sse_content::lemma_compare_events_self(es);
    assert(sse_content::compare_events(Seq::<(Seq<char>, Seq<RuleView>)>::empty(), es, es) =~= Seq::<
        sse_content::ContentMismatchView,
    >::empty());
}

// ---------------------------------------------------------------------------
// Configuring and generating contents
// ---------------------------------------------------------------------------

/// The SSE content written for a text: the events the text holds, written out
/// and encoded in UTF-8.
pub open spec fn generated_text(t: Seq<char>) -> Seq<u8> {
    vstd::utf8::encode_utf8(sse_content::format_events(sse_content::parse_events(t)))
}

/// Law: a generated content is valid UTF-8, and generating content from it
/// again gives it back unchanged.
pub proof fn lemma_generated_content_is_stable(t: Seq<char>)
    ensures
        vstd::utf8::valid_utf8(generated_text(t)),
        generated_text(vstd::utf8::decode_utf8(generated_text(t))) == generated_text(t),
{
    let f = sse_content::format_events(sse_content::parse_events(t));
    vstd::utf8::encode_utf8_valid_utf8(f);
    vstd::utf8::encode_utf8_decode_utf8(f);
    sse_content::lemma_parse_format_parse(t);
}

/// Law: generated content holds exactly the events of the text it is made
/// from, all of them, in order.
pub proof fn lemma_generated_content_keeps_events(t: Seq<char>)
    ensures
        vstd::utf8::valid_utf8(generated_text(t)),
        content_events(generated_text(t)) == sse_content::parse_events(t),
        content_events(generated_text(t)).len() == sse_content::parse_events(t).len(),
{
    sse_content::lemma_parsed_events_well_formed(t);
    sse_content::lemma_content_roundtrip(sse_content::parse_events(t));
}

/// Law: for a body that is valid UTF-8, the content generated from it holds
/// the same events as the body.
pub proof fn lemma_generated_body_keeps_events(content: Seq<u8>)
    requires
        vstd::utf8::valid_utf8(content),
    ensures
        content_events(generated_text(vstd::utf8::decode_utf8(content))) == content_events(content),
{
    lemma_generated_content_keeps_events(vstd::utf8::decode_utf8(content));
}

/// The value of the last field named `key`.
pub open spec fn struct_field(fields: Seq<(String, json::ProtoValue)>, key: Seq<char>) -> Option<
    json::ProtoValue,
>
    decreases fields.len(),
{
    if fields.len() == 0 {
        None
    } else if fields.last().0@ == key {
        Some(fields.last().1)
    } else {
        struct_field(fields.drop_last(), key)
    }
}

/// The text under `response.data` in an interaction's configuration, where the
/// `response` field holds a struct and its `data` field a string.
pub open spec fn configured_data(config: json::ProtoStruct) -> Option<Seq<char>> {
    match struct_field(config.fields@, "response"@) {
        Some(response) => match response.kind {
            Some(json::ProtoKind::StructValue(r)) => match struct_field(r.fields@, "data"@) {
                Some(data) => match data.kind {
                    Some(json::ProtoKind::StringValue(d)) => Some(d@),
                    _ => None,
                },
                None => None,
            },
            _ => None,
        },
        None => None,
    }
}

pub open spec fn aligned(fields: Seq<(String, json::ProtoValue)>, entries: Seq<(String, json::JsonValue)>) -> bool {
    &&& entries.len() == fields.len()
    &&& forall|i: int|
        0 <= i < fields.len() ==> #[trigger] entries[i].0@ == fields[i].0@ && json::value_json(
            fields[i].1,
            entries[i].1,
        )
}

proof fn lemma_lookup_aligned(
    fields: Seq<(String, json::ProtoValue)>,
    entries: Seq<(String, json::JsonValue)>,
    key: Seq<char>,
)
    requires
        aligned(fields, entries),
    ensures
        struct_field(fields, key) is Some <==> json::lookup(entries, key) is Some,
        struct_field(fields, key) is Some ==> json::value_json(
            struct_field(fields, key)->0,
            json::lookup(entries, key)->0,
        ),
    decreases fields.len(),
{
    if fields.len() > 0 {
        let n = fields.len() - 1;
        assert(entries[n].0@ == fields[n].0@);
        assert(aligned(fields.drop_last(), entries.drop_last())) by {
            assert forall|i: int| 0 <= i < fields.drop_last().len() implies #[trigger] entries.drop_last()[i].0@
                == fields.drop_last()[i].0@ && json::value_json(
                fields.drop_last()[i].1,
                entries.drop_last()[i].1,
            ) by {
                assert(entries[i].0@ == fields[i].0@);
            }
        }
        lemma_lookup_aligned(fields.drop_last(), entries.drop_last(), key);
    }
}

proof fn lemma_object_of_struct(v: json::ProtoValue, entries: Vec<(String, json::JsonValue)>)
    requires
        json::value_json(v, json::JsonValue::Object(entries)),
    ensures
        v.kind matches Some(json::ProtoKind::StructValue(r)) && aligned(r.fields@, entries@),
{
    match v.kind {
        Some(json::ProtoKind::StructValue(r)) => {
            assert forall|i: int| 0 <= i < r.fields@.len() implies #[trigger] entries@[i].0@
                == r.fields@[i].0@ && json::value_json(r.fields@[i].1, entries@[i].1) by {
                assert(entries@[i].0@ == r.fields@[i].0@);
            }
        },
        Some(json::ProtoKind::NumberValue(b)) => {
            if json::finite_bits(b) {
            }
        },
        _ => {},
    }
}

proof fn lemma_string_of_value(v: json::ProtoValue, t: String)
    requires
        json::value_json(v, json::JsonValue::String(t)),
    ensures
        v.kind matches Some(json::ProtoKind::StringValue(s)) && s@ == t@,
{
    match v.kind {
        Some(json::ProtoKind::NumberValue(b)) => {
            if json::finite_bits(b) {
            }
        },
        _ => {},
    }
}

proof fn lemma_not_struct(v: json::ProtoValue, j: json::JsonValue)
    requires
        json::value_json(v, j),
        !(j is Object),
    ensures
        !(v.kind matches Some(json::ProtoKind::StructValue(_))),
{
}

proof fn lemma_not_string(v: json::ProtoValue, j: json::JsonValue)
    requires
        json::value_json(v, j),
        !(j is String),
    ensures
        !(v.kind matches Some(json::ProtoKind::StringValue(_))),
{
}

fn response_part(content: Vec<u8>, rules: Vec<(String, Vec<RuleRequest>)>) -> (i: InteractionResponse)
    ensures
        i.contents matches Some(b) && b.content_type@ == event_stream_type() && b.content
            == Some(content) && b.content_type_hint == ContentTypeHint::Default,
        i.interaction_markup@.len() == 0,
        i.interaction_markup_type == MarkupType::CommonMark,
        i.part_name@ == "response"@,
        i.rules == rules,
{
    InteractionResponse {
        contents: Some(event_stream_body(Some(content))),
        rules: rules,
        interaction_markup: String::new(),
        interaction_markup_type: MarkupType::CommonMark,
        part_name: String::from_str("response"),
    }
}

pub open spec fn forms_view(fs: Seq<Vec<(String, AttributeValue)>>) -> Seq<Seq<(Seq<char>, AttributeView)>> {
    fs.map_values(|f: Vec<(String, AttributeValue)>| rules::attributes_view(f@))
}

/// The rules that are present, in order.
pub open spec fn present_forms(rs: Seq<Option<Seq<(Seq<char>, AttributeView)>>>) -> Seq<Seq<(Seq<char>, AttributeView)>>
    decreases rs.len(),
{
    if rs.len() == 0 {
        Seq::<Seq<(Seq<char>, AttributeView)>>::empty()
    } else {
        match rs.last() {
            Some(r) => present_forms(rs.drop_last()).push(r),
            None => present_forms(rs.drop_last()),
        }
    }
}

/// The example value and the rules (in their JSON form) of a configured text:
/// those of its matching expression where it is one, and else the text itself,
/// without rules. A text that names rules over keys or values of collections
/// (`eachKey`, `eachValue`) is taken as plain text: an event's text has neither.
pub open spec fn expression_value(t: Seq<char>) -> (Seq<char>, Seq<Seq<(Seq<char>, AttributeView)>>) {
    let plain = (t, Seq::<Seq<(Seq<char>, AttributeView)>>::empty());
    if !rules::expression_admitted(t) {
        plain
    } else {
        match rules::matcher_definition_of(t) {
            Some((example, rs)) => (example, present_forms(rs)),
            None => plain,
        }
    }
}

/// The text of the last field named `key`, where it holds a string.
pub open spec fn string_field(fields: Seq<(String, json::ProtoValue)>, key: Seq<char>) -> Option<Seq<char>> {
    match struct_field(fields, key) {
        Some(v) => match v.kind {
            Some(json::ProtoKind::StringValue(t)) => Some(t@),
            _ => None,
        },
        None => None,
    }
}

/// The event type that a key `data[type]` names.
pub open spec fn typed_name(key: Seq<char>) -> Option<Seq<char>> {
    if key.len() > 6 && key.take(5) == "data["@ && key.last() == ']' {
        Some(key.subrange(5, key.len() - 1))
    } else {
        None
    }
}

/// The event without a type that the `id`, `retry` and `data` fields describe,
/// where any of them is given: their examples, the retry time where its
/// example is a decimal `u64`, and empty data where none is given.
pub open spec fn simple_event(fields: Seq<(String, json::ProtoValue)>) -> Option<sse_content::SseEventView> {
    let id = string_field(fields, "id"@);
    let retry = string_field(fields, "retry"@);
    let data = string_field(fields, "data"@);
    if id is None && retry is None && data is None {
        None
    } else {
        Some(
            sse_content::SseEventView {
                event: None,
                id: match id {
                    Some(t) => Some(expression_value(t).0),
                    None => None,
                },
                data: match data {
                    Some(t) => expression_value(t).0,
                    None => Seq::<char>::empty(),
                },
                retry: match retry {
                    Some(t) => text::parse_u64(expression_value(t).0),
                    None => None,
                },
            },
        )
    }
}

/// The typed events that the `data[type]` fields describe, in field order.
pub open spec fn typed_events(fields: Seq<(String, json::ProtoValue)>) -> Seq<sse_content::SseEventView>
    decreases fields.len(),
{
    if fields.len() == 0 {
        Seq::<sse_content::SseEventView>::empty()
    } else {
        let prev = typed_events(fields.drop_last());
        let (key, value) = fields.last();
        match (typed_name(key@), value.kind) {
            (Some(t), Some(json::ProtoKind::StringValue(v))) => prev.push(
                sse_content::SseEventView {
                    event: Some(t),
                    id: None,
                    data: expression_value(v@).0,
                    retry: None,
                },
            ),
            _ => prev,
        }
    }
}

/// The events that a configuration of matching expressions describes: the
/// event without a type first, where there is one, then the typed events.
pub open spec fn configured_events(fields: Seq<(String, json::ProtoValue)>) -> Seq<sse_content::SseEventView> {
    match simple_event(fields) {
        Some(e) => seq![e] + typed_events(fields),
        None => typed_events(fields),
    }
}

/// Law: where a configuration gives `id`, `retry` or `data`, the first event
/// has no type and carries the example of `id` as its id, the example of
/// `retry` as its retry time (where it is a decimal `u64`), and the example of
/// `data` as its data (empty data where `data` is not given).
pub proof fn lemma_configured_first_event(fields: Seq<(String, json::ProtoValue)>)
    requires
        string_field(fields, "id"@) is Some || string_field(fields, "retry"@) is Some
            || string_field(fields, "data"@) is Some,
    ensures
        configured_events(fields).len() > 0,
        configured_events(fields)[0].event is None,
        match string_field(fields, "id"@) {
            Some(s) => configured_events(fields)[0].id == Some(expression_value(s).0),
            None => configured_events(fields)[0].id is None,
        },
        match string_field(fields, "retry"@) {
            Some(s) => configured_events(fields)[0].retry == text::parse_u64(expression_value(s).0),
            None => configured_events(fields)[0].retry is None,
        },
        match string_field(fields, "data"@) {
            Some(s) => configured_events(fields)[0].data == expression_value(s).0,
            None => configured_events(fields)[0].data.len() == 0,
        },
{
}

proof fn lemma_typed_events_grow(fields: Seq<(String, json::ProtoValue)>, n: int)
    requires
        0 <= n <= fields.len(),
    ensures
        typed_events(fields.take(n)).len() <= typed_events(fields).len(),
        forall|k: int|
            0 <= k < typed_events(fields.take(n)).len() ==> #[trigger] typed_events(fields)[k]
                == typed_events(fields.take(n))[k],
    decreases fields.len() - n,
{
    if n < fields.len() {
        lemma_typed_events_grow(fields, n + 1);
        assert(fields.take(n + 1).drop_last() =~= fields.take(n));
    } else {
        assert(fields.take(n) =~= fields);
    }
}

/// Law: each `data[type]` field that holds a text gives an event of that type
/// with the field's example as its data, and with no id and no retry time.
pub proof fn lemma_typed_field_gives_event(fields: Seq<(String, json::ProtoValue)>, j: int, t: Seq<char>, v: String)
    requires
        0 <= j < fields.len(),
        typed_name(fields[j].0@) == Some(t),
        fields[j].1.kind == Some(json::ProtoKind::StringValue(v)),
    ensures
        exists|k: int|
            0 <= k < configured_events(fields).len() && #[trigger] configured_events(fields)[k]
                == (sse_content::SseEventView {
                event: Some(t),
                id: None,
                data: expression_value(v@).0,
                retry: None,
            }),
{
    let pre = fields.take(j + 1);
    assert(pre.drop_last() =~= fields.take(j));
    assert(pre.last() == fields[j]);
    let k = typed_events(pre).len() - 1;
    lemma_typed_events_grow(fields, j + 1);
    let ev = sse_content::SseEventView { event: Some(t), id: None, data: expression_value(v@).0, retry: None };
    assert(typed_events(pre)[k] == ev);
    assert(typed_events(fields)[k] == ev);
    match simple_event(fields) {
        Some(e) => {
            assert(configured_events(fields)[k + 1] == ev);
        },
        None => {
            assert(configured_events(fields)[k] == ev);
        },
    }
}

/// Law: every typed event that a configuration describes has a type, and no
/// id or retry time.
pub proof fn lemma_typed_events_carry_only_type(fields: Seq<(String, json::ProtoValue)>, k: int)
    requires
        0 <= k < typed_events(fields).len(),
    ensures
        typed_events(fields)[k].event is Some,
        typed_events(fields)[k].id is None,
        typed_events(fields)[k].retry is None,
    decreases fields.len(),
{
    if k < typed_events(fields.drop_last()).len() {
        lemma_typed_events_carry_only_type(fields.drop_last(), k);
    }
}

/// The path of the value that a configuration key describes, if any.
pub open spec fn key_path(key: Seq<char>) -> Option<Seq<char>> {
    if key == "id"@ {
        Some(sse_content::id_path())
    } else if key == "retry"@ {
        Some(sse_content::retry_path())
    } else if key == "data"@ {
        Some(sse_content::data_path(None))
    } else {
        match typed_name(key) {
            Some(t) => Some(sse_content::data_path(Some(t))),
            None => None,
        }
    }
}

/// The rules that a configuration of matching expressions sets, by path, in
/// field order: one entry for each string field with a path and some rule.
pub open spec fn configured_rules(fields: Seq<(String, json::ProtoValue)>) -> Seq<
    (Seq<char>, Seq<Seq<(Seq<char>, AttributeView)>>),
>
    decreases fields.len(),
{
    if fields.len() == 0 {
        Seq::<(Seq<char>, Seq<Seq<(Seq<char>, AttributeView)>>)>::empty()
    } else {
        let prev = configured_rules(fields.drop_last());
        let (key, value) = fields.last();
        match (key_path(key@), value.kind) {
            (Some(path), Some(json::ProtoKind::StringValue(v))) => if expression_value(v@).1.len() > 0 {
                prev.push((path, expression_value(v@).1))
            } else {
                prev
            },
            _ => prev,
        }
    }
}

/// The forms of the rules that can be written in an interaction: those with a
/// kind under `match`, which becomes the request's type.
pub open spec fn written_rules(rs: Seq<Seq<(Seq<char>, AttributeView)>>) -> Seq<
    (Seq<char>, Seq<(Seq<char>, AttributeView)>),
>
    decreases rs.len(),
{
    if rs.len() == 0 {
        Seq::<(Seq<char>, Seq<(Seq<char>, AttributeView)>)>::empty()
    } else {
        match rules::text_attribute(rs.last(), "match"@) {
            Some(kind) => written_rules(rs.drop_last()).push((kind, rs.last())),
            None => written_rules(rs.drop_last()),
        }
    }
}

/// `req` is a rule request of type `ty` whose attributes are `attrs`.
pub open spec fn request_is(req: RuleRequest, ty: Seq<char>, attrs: Seq<(Seq<char>, AttributeView)>) -> bool {
    &&& req.rule_type@ == ty
    &&& req.values matches Some(v) && rules::attributes_view(v@) == attrs
}

/// `reqs` writes the rules `rs`, those that can be written, in order.
pub open spec fn requests_write(reqs: Seq<RuleRequest>, rs: Seq<Seq<(Seq<char>, AttributeView)>>) -> bool {
    &&& reqs.len() == written_rules(rs).len()
    &&& forall|i: int|
        0 <= i < reqs.len() ==> request_is(
            #[trigger] reqs[i],
            written_rules(rs)[i].0,
            written_rules(rs)[i].1,
        )
}

/// `out` writes the rules of `table`, path by path, in order.
pub open spec fn table_written(
    out: Seq<(String, Vec<RuleRequest>)>,
    table: Seq<(Seq<char>, Seq<Seq<(Seq<char>, AttributeView)>>)>,
) -> bool {
    &&& out.len() == table.len()
    &&& forall|i: int|
        0 <= i < out.len() ==> (#[trigger] out[i]).0@ == table[i].0 && requests_write(out[i].1@, table[i].1)
}

/// The example value and the rules of a configured text, as
/// `expression_value` says.
fn expression_of(t: &String) -> (r: (String, Vec<Vec<(String, AttributeValue)>>))
    ensures
        r.0@ == expression_value(t@).0,
        forms_view(r.1@) == expression_value(t@).1,
{
    if !rules::is_admitted_expression(t.as_str()) {
        let out: Vec<Vec<(String, AttributeValue)>> = Vec::new();
        assert(forms_view(out@) =~= Seq::<Seq<(Seq<char>, AttributeView)>>::empty());
        return (t.clone(), out);
    }
    match rules::matcher_definition(t.as_str()) {
        Some((example, rs)) => {
            let ghost rsv = rs@.map_values(|f: Option<Vec<(String, AttributeValue)>>| rules::opt_form_view(f));
            let mut out: Vec<Vec<(String, AttributeValue)>> = Vec::new();
            let mut i: usize = 0;
            while i < rs.len()
                invariant
                    i <= rs.len(),
                    rsv == rs@.map_values(|f: Option<Vec<(String, AttributeValue)>>| rules::opt_form_view(f)),
                    forms_view(out@) == present_forms(rsv.take(i as int)),
                decreases rs.len() - i,
            {
                assert(rsv.take(i + 1).drop_last() =~= rsv.take(i as int));
                match &rs[i] {
                    Some(form) => {
                        let ghost before = out@;
                        let form = copy_attributes(form);
                        out.push(form);
                        assert(forms_view(out@) =~= forms_view(before).push(rules::attributes_view(form@)));
                    },
                    None => {},
                }
                i += 1;
            }
            assert(rsv.take(rs.len() as int) =~= rsv);
            (example, out)
        },
        None => {
            let out: Vec<Vec<(String, AttributeValue)>> = Vec::new();
            assert(forms_view(out@) =~= Seq::<Seq<(Seq<char>, AttributeView)>>::empty());
            (t.clone(), out)
        },
    }
}

/// The text of the last field named `key`, where it holds a string, as
/// `string_field` says.
fn string_field_of(fields: &Vec<(String, json::ProtoValue)>, key: &str) -> (r: Option<String>)
    ensures
        sse_content::opt_text(r) == string_field(fields@, key@),
{
    let wanted = String::from_str(key);
    let mut k = fields.len();
    assert(fields@.take(k as int) =~= fields@);
    while k > 0
        invariant
            k <= fields.len(),
            wanted@ == key@,
            struct_field(fields@, key@) == struct_field(fields@.take(k as int), key@),
        decreases k,
    {
        assert(fields@.take(k - 1) =~= fields@.take(k as int).drop_last());
        if fields[k - 1].0 == wanted {
            return match &fields[k - 1].1.kind {
                Some(json::ProtoKind::StringValue(t)) => Some(t.clone()),
                _ => None,
            };
        }
        k -= 1;
    }
    None
}

/// The event type that a key `data[type]` names, as `typed_name` says.
fn typed_name_of(key: &String) -> (r: Option<String>)
    ensures
        sse_content::opt_text(r) == typed_name(key@),
{
    let k = text::chars_of(key.as_str());
    proof {
        reveal_strlit("data[");
    }
    if k.len() > 6 && k[0] == 'd' && k[1] == 'a' && k[2] == 't' && k[3] == 'a' && k[4] == '['
        && k[k.len() - 1] == ']' {
        assert(k@.take(5) =~= "data["@);
        let name = text::sub_chars(&k, 5, k.len() - 1);
        Some(text::string_of(&name))
    } else {
        proof {
            if k@.len() > 6 && k@.take(5) == "data["@ {
                assert(k@.take(5)[0] == 'd' && k@.take(5)[1] == 'a' && k@.take(5)[2] == 't');
                assert(k@.take(5)[3] == 'a' && k@.take(5)[4] == '[');
            }
        }
        None
    }
}

/// The path of the value that a configuration key describes, as `key_path`
/// says.
fn key_path_of(key: &String) -> (r: Option<String>)
    ensures
        sse_content::opt_text(r) == key_path(key@),
{
    if *key == String::from_str("id") {
        Some(String::from_str("$.id"))
    } else if *key == String::from_str("retry") {
        Some(String::from_str("$.retry"))
    } else if *key == String::from_str("data") {
        Some(sse_content::data_path_of(&None))
    } else {
        match typed_name_of(key) {
            Some(t) => Some(sse_content::data_path_of(&Some(t))),
            None => None,
        }
    }
}

/// The requests of the rules that can be written, in order.
fn write_rules(rs: &Vec<Vec<(String, AttributeValue)>>) -> (reqs: Vec<RuleRequest>)
    ensures
        requests_write(reqs@, forms_view(rs@)),
{
    let ghost rv = forms_view(rs@);
    let mut reqs: Vec<RuleRequest> = Vec::new();
    let mut i: usize = 0;
    while i < rs.len()
        invariant
            i <= rs.len(),
            rv == forms_view(rs@),
            requests_write(reqs@, rv.take(i as int)),
        decreases rs.len() - i,
    {
        assert(rv.take(i + 1).drop_last() =~= rv.take(i as int));
        assert(rv.take(i + 1).last() == rules::attributes_view(rs@[i as int]@));
        match rules::text_attribute_of(&rs[i], "match") {
            Some(kind) => {
                let q = RuleRequest { rule_type: kind, values: Some(copy_attributes(&rs[i])) };
                reqs.push(q);
            },
            None => {},
        }
        i += 1;
    }
    assert(rv.take(rs.len() as int) =~= rv);
    reqs
}

/// The events and the rules that a configuration of matching expressions
/// describes, as `configured_events` and `configured_rules` say.
fn configured_parts(fields: &Vec<(String, json::ProtoValue)>) -> (r: (
    Vec<SseEvent>,
    Vec<(String, Vec<RuleRequest>)>,
))
    ensures
        sse_content::events_view(r.0@) == configured_events(fields@),
        table_written(r.1@, configured_rules(fields@)),
{
    let mut events: Vec<SseEvent> = Vec::new();
    let id = string_field_of(fields, "id");
    let retry = string_field_of(fields, "retry");
    let data = string_field_of(fields, "data");
    if id.is_some() || retry.is_some() || data.is_some() {
        let id_value = match &id {
            Some(t) => Some(expression_of(t).0),
            None => None,
        };
        let data_value = match &data {
            Some(t) => expression_of(t).0,
            None => String::new(),
        };
        let retry_value = match &retry {
            Some(t) => text::parse_u64_chars(&text::chars_of(expression_of(t).0.as_str())),
            None => None,
        };
        events.push(SseEvent { event: None, id: id_value, data: data_value, retry: retry_value });
        assert(sse_content::events_view(events@) =~= seq![simple_event(fields@)->0]);
    } else {
        assert(sse_content::events_view(events@) =~= Seq::<sse_content::SseEventView>::empty());
    }
    let ghost prefix = sse_content::events_view(events@);
    let mut table: Vec<(String, Vec<RuleRequest>)> = Vec::new();
    let mut i: usize = 0;
    while i < fields.len()
        invariant
            i <= fields.len(),
            sse_content::events_view(events@) == prefix + typed_events(fields@.take(i as int)),
            table_written(table@, configured_rules(fields@.take(i as int))),
        decreases fields.len() - i,
    {
        assert(fields@.take(i + 1).drop_last() =~= fields@.take(i as int));
        assert(fields@.take(i + 1).last() == fields@[i as int]);
        let ghost events_before = sse_content::events_view(events@);
        let ghost table_before = table@;
        let key = &fields[i].0;
        match &fields[i].1.kind {
            Some(json::ProtoKind::StringValue(v)) => {
                let (example, rs) = expression_of(v);
                match typed_name_of(key) {
                    Some(t) => {
                        let e = SseEvent { event: Some(t), id: None, data: example, retry: None };
                        events.push(e);
                        assert(sse_content::events_view(events@) =~= events_before.push(e@));
                    },
                    None => {},
                }
                match key_path_of(key) {
                    Some(path) => {
                        if rs.len() > 0 {
                            let reqs = write_rules(&rs);
                            table.push((path, reqs));
                            assert(table@ =~= table_before.push((path, reqs)));
                        }
                    },
                    None => {},
                }
            },
            _ => {},
        }
        i += 1;
    }
    assert(fields@.take(fields.len() as int) =~= fields@);
    (events, table)
}

/// The text under `response.data` in a configuration, as `configured_data`
/// says.
fn response_data(config: &json::ProtoStruct) -> (r: Option<String>)
    ensures
        sse_content::opt_text(r) == configured_data(*config),
{
    let config_map = json::to_object(config);
    let mut found: Option<String> = None;
    if let json::JsonValue::Object(map) = &config_map {
        proof {
            lemma_object_of_struct(
                json::ProtoValue { kind: Some(json::ProtoKind::StructValue(*config)) },
                *map,
            );
            lemma_lookup_aligned(config.fields@, map@, "response"@);
        }
        match json::get(map, "response") {
            Some(response) => {
                let ghost rv = struct_field(config.fields@, "response"@)->0;
                match response {
                    json::JsonValue::Object(resp_map) => {
                        proof {
                            lemma_object_of_struct(rv, *resp_map);
                            let r = rv.kind->0->StructValue_0;
                            lemma_lookup_aligned(r.fields@, resp_map@, "data"@);
                        }
                        match json::get(resp_map, "data") {
                            Some(data_value) => {
                                let ghost r = rv.kind->0->StructValue_0;
                                let ghost dv = struct_field(r.fields@, "data"@)->0;
                                match data_value {
                                    json::JsonValue::String(data) => {
                                        proof {
                                            lemma_string_of_value(dv, *data);
                                        }
                                        found = Some(data.clone());
                                    },
                                    _ => {
                                        proof {
                                            lemma_not_string(dv, *data_value);
                                        }
                                    },
                                }
                            },
                            None => {},
                        }
                    },
                    _ => {
                        proof {
                            lemma_not_struct(rv, *response);
                        }
                    },
                }
            },
            None => {},
        }
    } else {
        assert(false);
    }
    found
}

/// A response part of `content` and `rules`, as the plugin writes it.
pub open spec fn part_is(
    part: InteractionResponse,
    content: Seq<u8>,
    rules: Seq<(Seq<char>, Seq<Seq<(Seq<char>, AttributeView)>>)>,
) -> bool {
    &&& part.contents matches Some(b)
    &&& b.content_type@ == event_stream_type()
    &&& sse_content::opt_bytes(b.content) == Some(content)
    &&& b.content_type_hint == ContentTypeHint::Default
    &&& table_written(part.rules@, rules)
    &&& part.interaction_markup@.len() == 0
    &&& part.interaction_markup_type == MarkupType::CommonMark
    &&& part.part_name@ == "response"@
}

/// Configures an interaction from the contents given in a consumer test. Where
/// the configuration has a text under `response.data`, that text is read as
/// SSE events, which become the content of the response part, without rules.
/// Otherwise its fields are matching expressions (or plain texts): `id`,
/// `retry` and `data` describe an event without a type, and each `data[type]`
/// an event of that type; the events are written out as the content, and the
/// rules of the expressions go with it, by path. A configuration that
/// describes no event configures no part.
pub fn configure_interaction(config: &json::ProtoStruct) -> (r: ConfigureInteractionResponse)
    ensures
        r.error@.len() == 0,
        match configured_data(*config) {
            Some(d) => r.interaction@.len() == 1 && part_is(
                r.interaction@[0],
                generated_text(d),
                Seq::<(Seq<char>, Seq<Seq<(Seq<char>, AttributeView)>>)>::empty(),
            ),
            None => {
                let events = configured_events(config.fields@);
                if events.len() == 0 {
                    r.interaction@.len() == 0
                } else {
                    r.interaction@.len() == 1 && part_is(
                        r.interaction@[0],
                        vstd::utf8::encode_utf8(sse_content::format_events(events)),
                        configured_rules(config.fields@),
                    )
                }
            },
        },
{
    let mut interactions: Vec<InteractionResponse> = Vec::new();
    match response_data(config) {
        Some(data) => {
            let events = SseEvent::parse(data.as_str());
            let content = sse_content::format_sse_content(&events);
            let part = response_part(content, Vec::new());
            assert(part.rules@.len() == 0);
            interactions.push(part);
        },
        None => {
            let (events, table) = configured_parts(&config.fields);
            if events.len() > 0 {
                let content = sse_content::format_sse_content(&events);
                interactions.push(response_part(content, table));
            }
        },
    }
    ConfigureInteractionResponse { error: String::new(), interaction: interactions }
}

/// Law: the content configured from matching expressions reads back as the
/// configured events, where those are well formed: a client of the mock server
/// receives the events that the consumer test describes.
pub proof fn lemma_configured_content_reads_back(fields: Seq<(String, json::ProtoValue)>)
    requires
        sse_content::all_well_formed(configured_events(fields)),
    ensures
        vstd::utf8::valid_utf8(vstd::utf8::encode_utf8(sse_content::format_events(configured_events(fields)))),
        content_events(vstd::utf8::encode_utf8(sse_content::format_events(configured_events(fields))))
            == configured_events(fields),
{
    sse_content::lemma_content_roundtrip(configured_events(fields));
}

/// Generates the contents of a body: its bytes are read as text (invalid UTF-8
/// sequences becoming replacement characters), the SSE events of that text are
/// written out again.
pub fn generate_content(content: &Vec<u8>) -> (r: GenerateContentResponse)
    ensures
        r.contents matches Some(b) && b.content_type@ == event_stream_type()
            && b.content_type_hint == ContentTypeHint::Default && sse_content::opt_bytes(b.content)
            == Some(generated_text(text::lossy_utf8(content@))),
        vstd::utf8::valid_utf8(content@) ==> sse_content::opt_bytes(r.contents->0.content) == Some(
            generated_text(vstd::utf8::decode_utf8(content@)),
        ),
{
    let content_str = text::utf8_decode_lossy(content.as_slice());
    let events = SseEvent::parse(content_str.as_str());
    let generated = sse_content::format_sse_content(&events);
    GenerateContentResponse { contents: Some(event_stream_body(Some(generated))) }
}

/// The data with which an interaction is verified: an empty SSE body.
pub fn prepare_interaction_for_verification() -> (r: InteractionData)
    ensures
        r.body matches Some(b) && b.content_type@ == event_stream_type() && b.content is None
            && b.content_type_hint == ContentTypeHint::Default,
{
    InteractionData { body: Some(event_stream_body(None)) }
}

} // verus!
