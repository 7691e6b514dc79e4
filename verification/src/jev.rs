//! The judge that asks a service, and when it asks again.
use serde_json::Value;
use vstd::arithmetic::power2::pow2;
use vstd::prelude::*;
use vstd::utf8::*;

use crate::json::{
    copy, empty_table, json_of, json_parsed, json_text, parse, render, set_member, text_value,
    Json,
};
use crate::judge::{Judged, Verdict};
use crate::text::{
    hex, hex_text, is_hex_digit, lemma_hex_tells, lemma_hex_text, lemma_strip_added,
    lemma_strip_end_added, lemma_utf8_add, strip, strip_end, stripped, stripped_end, trim, trimmed,
    Class,
};

verus! {

/// Where the service is, unless another place is given.
pub const DEFAULT_ENDPOINT: &'static str = "https://api.typesafe.ai";

/// How often a judgement is asked for before it fails.
pub const MAX_ATTEMPTS: u32 = 6;

/// What is asked of each template, as a JSON document.
pub const QUESTIONS: &'static str =
    r#"{
    "pageable": {
        "type": "noul",
        "instructions": {
            "question": "Does `policy` say to page an on-call engineer for the event reported in `log.template`?",
            "focus": "Judge the event the message describes. Placeholders such as <*> or <NUM> stand for values that vary between occurrences."
        },
        "criteria": {
            "true": "The event matches something in `policy.page` and nothing in `policy.do_not_page`.",
            "false": "The event matches `policy.do_not_page`, or matches nothing in `policy.page`."
        }
    },
    "detail": {
        "type": "noul",
        "instructions": {
            "question": "Is `log.template` supporting detail that belongs to another log message, rather than a report of an event on its own?",
            "focus": "Multi-line output such as stack traces and dumps spreads one event across many lines; only the headline line reports the event."
        },
        "criteria": {
            "true": {
                "what": "A continuation of another message: a stack frame, register or memory dump, field or value listing, or one line of a multi-line report.",
                "examples": ["at com.example.Worker.run(Worker.java:<NUM>)", "rax: <HEX> rbx: <HEX> rcx: <HEX>", "... <NUM> more"]
            },
            "false": {
                "what": "A complete message that reports an event, state change, or result by itself.",
                "examples": ["NullPointerException in request handler", "worker <NUM> exited with status <NUM>", "GET /health <NUM> <NUM>ms"]
            }
        }
    },
    "severity": {
        "type": "score",
        "instructions": "How severe is the condition described in `log.template`?",
        "criteria": [
            "Informational: normal operation, nothing is wrong.",
            "Warning: unusual or degraded, but the system continues or recovers on its own.",
            "Error: a component or operation failed and needs investigation.",
            "Critical: outage, crash, data loss, hardware fault, or security breach needing immediate action."
        ]
    },
    "area": {
        "type": "choice",
        "instructions": "Which part of the system does `log.template` concern?",
        "criteria": {
            "hardware": "Physical devices: CPU, memory, disks, power, fans, interconnects.",
            "operating_system": "Kernel, drivers, processes, scheduling, system services.",
            "network": "Connectivity, DNS, sockets, load balancers, remote endpoints.",
            "storage": "Filesystems, volumes, databases, replication, backups.",
            "security": "Authentication, authorization, certificates, intrusion attempts.",
            "application": "Business logic, services, jobs, and their requests.",
            "other": null
        }
    }
}"#;

/// Whether `text` is a JSON document, whatever white space is around it.
pub open spec fn is_document(text: Seq<char>) -> bool {
    json_parsed(encode_utf8(stripped(text, Class::Blank))) is Ok
}

/// The JSON document that `text` is, whatever white space is around it, or else
/// the trimmed text itself.
pub open spec fn document_of(text: Seq<char>) -> Json {
    match json_parsed(encode_utf8(stripped(text, Class::Blank))) {
        Ok(json) => json,
        Err(_) => Json::Text(trimmed(text)),
    }
}

/// The JSON document that `text` is, whatever white space is around it, or else
/// the trimmed text itself.
fn document(text: &str) -> (value: Value)
    ensures
        json_of(value) == document_of(text@),
{
    match parse(strip(text, Class::Blank).as_bytes()) {
        Ok(value) => value,
        Err(_) => text_value(trim(text).to_string()),
    }
}

/// The hash `hash` after one more byte.
pub open spec fn fnv1a_step(hash: u64, byte: u8) -> u64 {
    (((hash ^ (byte as u64)) * 0x100_0000_01b3) % 0x1_0000_0000_0000_0000) as u64
}

/// The hash `hash` after the bytes `bytes`.
pub open spec fn fnv1a_from(hash: u64, bytes: Seq<u8>) -> u64
    decreases bytes.len(),
{
    if bytes.len() == 0 {
        hash
    } else {
        fnv1a_step(fnv1a_from(hash, bytes.drop_last()), bytes.last())
    }
}

/// The hash of `bytes` by FNV-1a with 64 bits.
pub open spec fn fnv1a_of(bytes: Seq<u8>) -> u64 {
    fnv1a_from(0xcbf2_9ce4_8422_2325, bytes)
}

/// The hash of `bytes` by FNV-1a with 64 bits.
pub fn fnv1a(bytes: &[u8]) -> (hash: u64)
    ensures
        hash == fnv1a_of(bytes@),
{
    let mut hash: u64 = 0xcbf2_9ce4_8422_2325;
    let mut i: usize = 0;
    assert(bytes@.take(0) == Seq::<u8>::empty());
    while i < bytes.len()
        invariant
            i <= bytes@.len(),
            hash == fnv1a_of(bytes@.take(i as int)),
        decreases bytes@.len() - i,
    {
        proof {
            assert(bytes@.take(i + 1).drop_last() == bytes@.take(i as int));
        }
        hash = (hash ^ bytes[i] as u64).wrapping_mul(0x100_0000_01b3);
        i += 1;
    }
    assert(bytes@.take(bytes@.len() as int) == bytes@);
    hash
}

/// What tells verdicts of the model `model` from others: the model, and a hash
/// of the place, the questions and the policy that it is asked with.
pub open spec fn fingerprint_text(
    model: Seq<char>,
    url: Seq<char>,
    questions: Seq<char>,
    policy: Seq<char>,
) -> Seq<char> {
    model + ":"@ + hex_text(fnv1a_of(encode_utf8(url + questions + policy)) as nat, 16)
}

/// What tells verdicts of the model `model` from others: the model, and a hash
/// of the place, the questions and the policy that it is asked with.
pub fn fingerprint_of(model: &str, url: &str, questions: &str, policy: &str) -> (name: String)
    ensures
        name@ == fingerprint_text(model@, url@, questions@, policy@),
{
    let mut inputs = String::new();
    inputs.append(url);
    inputs.append(questions);
    inputs.append(policy);
    let hash = fnv1a(inputs.as_str().as_bytes());
    let mut name = String::new();
    name.append(model);
    name.append(":");
    name.append(hex(hash, 16).as_str());
    name
}

/// A judge that asks a service.
pub struct Jev {
    url: String,
    api_key: String,
    model: String,
    policy: Value,
    questions: Value,
}

/// What a judge holds.
pub struct JevView {
    pub url: Seq<char>,
    pub api_key: Seq<char>,
    pub model: Seq<char>,
    pub policy: Json,
    pub questions: Json,
}

impl View for Jev {
    type V = JevView;

    closed spec fn view(&self) -> JevView {
        JevView {
            url: self.url@,
            api_key: self.api_key@,
            model: self.model@,
            policy: json_of(self.policy),
            questions: json_of(self.questions),
        }
    }
}

impl JevView {
    /// What tells the verdicts of this judge from those of others.
    pub open spec fn name(self) -> Seq<char> {
        fingerprint_text(self.model, self.url, json_text(self.questions), json_text(self.policy))
    }

    /// What the judge asks with, as it is hashed: the place, the questions and
    /// the policy.
    pub open spec fn inputs(self) -> Seq<u8> {
        encode_utf8(self.url + json_text(self.questions) + json_text(self.policy))
    }

    /// What the service is asked about `template`.
    pub open spec fn request(self, template: Seq<char>) -> Json {
        Json::Table(
            Map::empty().insert("model"@, Json::Text(self.model)).insert(
                "state"@,
                Json::Table(
                    Map::empty().insert("policy"@, self.policy).insert(
                        "log"@,
                        Json::Table(Map::empty().insert("template"@, Json::Text(template))),
                    ),
                ),
            ).insert("questions"@, self.questions),
        )
    }
}

/// The judge that asks the service at `endpoint` by the policy `policy`.
pub open spec fn jev_for(
    api_key: Seq<char>,
    model: Seq<char>,
    endpoint: Seq<char>,
    policy: Seq<char>,
) -> JevView {
    JevView {
        url: stripped_end(endpoint, Class::Slash) + "/v1/systemone"@,
        api_key,
        model,
        policy: document_of(policy),
        questions: document_of(QUESTIONS@),
    }
}

impl Jev {
    /// A judge that asks the service at `endpoint` by the paging policy
    /// `policy`, which is JSON or plain text.
    pub fn new(api_key: String, model: String, endpoint: &str, policy: &str) -> (jev: Jev)
        ensures
            jev@ == jev_for(api_key@, model@, endpoint@, policy@),
    {
        let mut url = String::new();
        url.append(strip_end(endpoint, Class::Slash));
        url.append("/v1/systemone");
        Jev { url, api_key, model, policy: document(policy), questions: document(QUESTIONS) }
    }

    /// Where the service is asked.
    pub fn url(&self) -> (url: &str)
        ensures
            url@ == self@.url,
    {
        self.url.as_str()
    }

    /// The key that the service is asked with.
    pub fn api_key(&self) -> (key: &str)
        ensures
            key@ == self@.api_key,
    {
        self.api_key.as_str()
    }

    /// What tells the verdicts of this judge from those of others.
    pub fn fingerprint(&self) -> (name: String)
        ensures
            name@ == self@.name(),
    {
        fingerprint_of(
            self.model.as_str(),
            self.url.as_str(),
            render(&self.questions).as_str(),
            render(&self.policy).as_str(),
        )
    }

    /// The body of the request about `template`.
    pub fn request(&self, template: &str) -> (body: String)
        ensures
            body@ == json_text(self@.request(template@)),
    {
        let mut log = empty_table();
        set_member(&mut log, "template", text_value(template.to_string()));
        let mut state = empty_table();
        set_member(&mut state, "policy", copy(&self.policy));
        set_member(&mut state, "log", log);
        let mut request = empty_table();
        set_member(&mut request, "model", text_value(self.model.clone()));
        set_member(&mut request, "state", state);
        set_member(&mut request, "questions", copy(&self.questions));
        render(&request)
    }
}

/// Whether to ask again after the status `status`.
pub open spec fn is_retryable(status: u16) -> bool {
    ||| status == 408
    ||| status == 429
    ||| status == 500
    ||| status == 502
    ||| status == 503
    ||| status == 504
    ||| status == 529
}

/// Whether to ask again after the status `status`.
pub fn retryable(status: u16) -> (again: bool)
    ensures
        again == is_retryable(status),
{
    status == 408 || status == 429 || status == 500 || status == 502 || status == 503 || status
        == 504 || status == 529
}

/// The milliseconds to wait after attempt `attempt`: they double with each
/// attempt, up to ten seconds.
pub open spec fn pause(attempt: u32) -> nat {
    let doublings = if attempt < 6 {
        attempt as nat
    } else {
        6
    };
    let millis = 250nat * pow2(doublings);
    if millis < 10_000 {
        millis
    } else {
        10_000
    }
}

/// The milliseconds to wait after attempt `attempt`.
pub fn backoff(attempt: u32) -> (millis: u64)
    ensures
        millis == pause(attempt),
{
    proof {
        vstd::arithmetic::power2::lemma2_to64();
    }
    if attempt == 0 {
        250
    } else if attempt == 1 {
        500
    } else if attempt == 2 {
        1_000
    } else if attempt == 3 {
        2_000
    } else if attempt == 4 {
        4_000
    } else if attempt == 5 {
        8_000
    } else {
        10_000
    }
}

/// What became of a request.
#[derive(Debug, Clone, Copy, PartialEq, Eq, Structural)]
pub enum Reply {
    /// The service answered with a status, and may have said how many
    /// nanoseconds to wait.
    Answered { status: u16, retry_after: Option<u64> },
    /// The request did not reach the service.
    Lost,
    /// The request could not be made.
    Unmade,
}

/// What to do after a request.
#[derive(Debug, Clone, Copy, PartialEq, Eq, Structural)]
pub enum Next {
    /// Read the answer.
    Read,
    /// Ask again after so many nanoseconds.
    Retry { nanos: u64 },
    /// Report the status that the service refused with.
    Refused,
    /// Report that the service cannot be asked.
    Failed,
}

/// What to do after attempt `attempt`, counted from one, ended with `reply`.
pub open spec fn next_of(attempt: u32, reply: Reply) -> Next {
    match reply {
        Reply::Answered { status, retry_after } => if 200 <= status <= 299 {
            Next::Read
        } else if is_retryable(status) && attempt < MAX_ATTEMPTS {
            Next::Retry {
                nanos: match retry_after {
                    Some(nanos) => nanos,
                    None => (pause(attempt) * 1_000_000) as u64,
                },
            }
        } else {
            Next::Refused
        },
        Reply::Lost => if attempt < MAX_ATTEMPTS {
            Next::Retry { nanos: (pause(attempt) * 1_000_000) as u64 }
        } else {
            Next::Failed
        },
        Reply::Unmade => Next::Failed,
    }
}

/// What to do after attempt `attempt`, counted from one, ended with `reply`.
pub fn after_reply(attempt: u32, reply: Reply) -> (next: Next)
    ensures
        next == next_of(attempt, reply),
{
    match reply {
        Reply::Answered { status, retry_after } => {
            if 200 <= status && status <= 299 {
                Next::Read
            } else if retryable(status) && attempt < MAX_ATTEMPTS {
                match retry_after {
                    Some(nanos) => Next::Retry { nanos },
                    None => Next::Retry { nanos: backoff(attempt) * 1_000_000 },
                }
            } else {
                Next::Refused
            }
        },
        Reply::Lost => {
            if attempt < MAX_ATTEMPTS {
                Next::Retry { nanos: backoff(attempt) * 1_000_000 }
            } else {
                Next::Failed
            }
        },
        Reply::Unmade => Next::Failed,
    }
}

/// The judgement that `verdict` makes, or the verdict itself if a score of it is
/// out of range.
pub fn accept(verdict: Verdict, input_tokens: u64, model: String) -> (judged: Result<
    Judged,
    Verdict,
>)
    ensures
        match judged {
            Ok(done) => verdict@.valid() && done.verdict@ == verdict@ && done.input_tokens
                == input_tokens && done.model@ == model@,
            Err(refused) => !verdict@.valid() && refused@ == verdict@,
        },
{
    if verdict.is_valid() {
        Ok(Judged { verdict, input_tokens, model })
    } else {
        Err(verdict)
    }
}

/// A fingerprint is the model, a colon, and sixteen lower-case hexadecimal
/// digits.
pub proof fn law_fingerprints_have_one_form(jev: JevView)
    ensures
        jev.name().len() == jev.model.len() + 17,
        jev.name().take(jev.model.len() as int) == jev.model,
        jev.name()[jev.model.len() as int] == ':',
        forall|i: int|
            jev.model.len() < i < jev.name().len() ==> is_hex_digit(#[trigger] jev.name()[i]),
{
    reveal_strlit(":");
    let hash = fnv1a_of(jev.inputs()) as nat;
    lemma_hex_text(hash, 16);
    assert(jev.name().take(jev.model.len() as int) == jev.model);
    assert forall|i: int| jev.model.len() < i < jev.name().len() implies is_hex_digit(
        #[trigger] jev.name()[i],
    ) by {
        assert(jev.name()[i] == hex_text(hash, 16)[i - jev.model.len() - 1]);
    }
}

/// Neither the key, nor slashes at the end of the endpoint, nor white space
/// around the policy change a fingerprint. Around a JSON document that is the
/// white space of JSON, and around any other text it is all white space.
pub proof fn law_fingerprints_ignore_the_key_and_what_is_stripped(
    key: Seq<char>,
    other_key: Seq<char>,
    model: Seq<char>,
    endpoint: Seq<char>,
    slashes: Seq<char>,
    before: Seq<char>,
    policy: Seq<char>,
    after: Seq<char>,
)
    requires
        Class::Slash.admits_all(slashes),
        ({
            ||| Class::Blank.admits_all(before) && Class::Blank.admits_all(after)
            ||| {
                &&& Class::Space.admits_all(before) && Class::Space.admits_all(after)
                &&& !is_document(policy) && !is_document(before + policy + after)
            }
        }),
    ensures
        jev_for(other_key, model, endpoint + slashes, before + policy + after).name() == jev_for(
            key,
            model,
            endpoint,
            policy,
        ).name(),
{
    lemma_strip_end_added(endpoint, slashes, Class::Slash);
    if Class::Blank.admits_all(before) && Class::Blank.admits_all(after) {
        lemma_strip_added(before, policy, after, Class::Blank);
        assert forall|i: int| 0 <= i < before.len() implies Class::Space.admits(
            #[trigger] before[i],
        ) by {
            assert(Class::Blank.admits(before[i]));
        }
        assert forall|i: int| 0 <= i < after.len() implies Class::Space.admits(
            #[trigger] after[i],
        ) by {
            assert(Class::Blank.admits(after[i]));
        }
    }
    lemma_strip_added(before, policy, after, Class::Space);
}

/// Judges with the same fingerprint ask the same model, with a place, questions
/// and a policy of the same hash.
pub proof fn law_fingerprints_tell_model_and_hash(a: JevView, b: JevView)
    ensures
        a.name() == b.name() <==> a.model == b.model && fnv1a_of(a.inputs()) == fnv1a_of(
            b.inputs(),
        ),
{
    let (x, y) = (fnv1a_of(a.inputs()), fnv1a_of(b.inputs()));
    law_fingerprints_have_one_form(a);
    law_fingerprints_have_one_form(b);
    if a.name() == b.name() {
        reveal_strlit(":");
        let n = a.model.len() as int;
        assert(a.model == b.model);
        assert(hex_text(x as nat, 16) == a.name().skip(n + 1));
        assert(hex_text(y as nat, 16) == b.name().skip(n + 1));
        lemma_hex_tells(x, y);
    }
}

/// The hash of some bytes after others goes on from the hash of the others.
proof fn lemma_fnv1a_add(hash: u64, a: Seq<u8>, b: Seq<u8>)
    ensures
        fnv1a_from(hash, a + b) == fnv1a_from(fnv1a_from(hash, a), b),
    decreases b.len(),
{
    if b.len() == 0 {
        assert(a + b == a);
    } else {
        assert((a + b).drop_last() == a + b.drop_last());
        lemma_fnv1a_add(hash, a, b.drop_last());
    }
}

/// Multiplying by the prime of FNV-1a can be undone.
proof fn lemma_prime_is_odd(x: u64, y: u64)
    requires
        (x * 0x100_0000_01b3) % 0x1_0000_0000_0000_0000 == (y * 0x100_0000_01b3)
            % 0x1_0000_0000_0000_0000,
    ensures
        x == y,
{
    let m: int = 0x1_0000_0000_0000_0000;
    let p: int = 0x100_0000_01b3;
    let inverse: int = 0xce96_5057_aff6_957b;
    let over: int = 0xce_9650_590f;
    assert(p * inverse == m * over + 1);
    assert forall|z: u64| ((#[trigger] (z * p)) % m * inverse) % m == z by {
        vstd::arithmetic::div_mod::lemma_mul_mod_noop_left(z * p, inverse, m);
        assert(z * p * inverse == m * (z * over) + z) by (nonlinear_arith)
            requires
                p * inverse == m * over + 1,
        ;
        vstd::arithmetic::div_mod::lemma_mod_multiples_vanish(z * over, z as int, m);
        vstd::arithmetic::div_mod::lemma_small_mod(z as nat, m as nat);
    }
    assert(((x * p) % m * inverse) % m == x);
    assert(((y * p) % m * inverse) % m == y);
}

/// One more byte keeps different hashes apart, and different bytes make
/// different hashes.
proof fn lemma_step_tells(x: u64, y: u64, a: u8, b: u8)
    ensures
        fnv1a_step(x, a) == fnv1a_step(y, a) ==> x == y,
        fnv1a_step(x, a) == fnv1a_step(x, b) ==> a == b,
{
    let (i, j) = (a as u64, b as u64);
    if fnv1a_step(x, a) == fnv1a_step(y, a) {
        lemma_prime_is_odd(x ^ i, y ^ i);
        assert(x ^ i == y ^ i ==> x == y) by (bit_vector);
    }
    if fnv1a_step(x, a) == fnv1a_step(x, b) {
        lemma_prime_is_odd(x ^ i, x ^ j);
        assert(x ^ i == x ^ j ==> i == j) by (bit_vector);
    }
}

/// The same bytes keep different hashes apart.
proof fn lemma_bytes_keep_hashes_apart(x: u64, y: u64, bytes: Seq<u8>)
    ensures
        fnv1a_from(x, bytes) == fnv1a_from(y, bytes) <==> x == y,
    decreases bytes.len(),
{
    if bytes.len() > 0 {
        let rest = bytes.drop_last();
        lemma_bytes_keep_hashes_apart(x, y, rest);
        lemma_step_tells(fnv1a_from(x, rest), fnv1a_from(y, rest), bytes.last(), bytes.last());
    }
}

/// Whatever the policy is, two endpoints have the same fingerprint exactly if
/// they have the same hash.
pub proof fn law_fingerprints_tell_endpoints(
    key: Seq<char>,
    other_key: Seq<char>,
    model: Seq<char>,
    endpoint: Seq<char>,
    other: Seq<char>,
    policy: Seq<char>,
)
    ensures
        jev_for(key, model, endpoint, policy).name() == jev_for(
            other_key,
            model,
            other,
            policy,
        ).name() <==> fnv1a_of(encode_utf8(stripped_end(endpoint, Class::Slash))) == fnv1a_of(
            encode_utf8(stripped_end(other, Class::Slash)),
        ),
{
    let a = jev_for(key, model, endpoint, policy);
    let b = jev_for(other_key, model, other, policy);
    let (s, t) = (stripped_end(endpoint, Class::Slash), stripped_end(other, Class::Slash));
    let rest = "/v1/systemone"@ + json_text(a.questions) + json_text(a.policy);
    law_fingerprints_tell_model_and_hash(a, b);
    assert(a.url + json_text(a.questions) + json_text(a.policy) == s + rest);
    assert(b.url + json_text(b.questions) + json_text(b.policy) == t + rest);
    lemma_utf8_add(s, rest);
    lemma_utf8_add(t, rest);
    lemma_fnv1a_add(fnv1a_of(seq![]), encode_utf8(s), encode_utf8(rest));
    lemma_fnv1a_add(fnv1a_of(seq![]), encode_utf8(t), encode_utf8(rest));
    lemma_bytes_keep_hashes_apart(
        fnv1a_of(encode_utf8(s)),
        fnv1a_of(encode_utf8(t)),
        encode_utf8(rest),
    );
}

/// A change of one byte in what judges ask with, be it of the place, the
/// questions or the policy, always changes the fingerprint.
pub proof fn law_fingerprints_tell_each_byte(a: JevView, b: JevView, i: int)
    requires
        a.inputs().len() == b.inputs().len(),
        0 <= i < a.inputs().len(),
        a.inputs()[i] != b.inputs()[i],
        forall|j: int|
            0 <= j < a.inputs().len() && j != i ==> #[trigger] a.inputs()[j] == b.inputs()[j],
    ensures
        a.name() != b.name(),
{
    let (x, y) = (a.inputs(), b.inputs());
    let start = fnv1a_of(seq![]);
    let (head, tail) = (x.take(i), x.skip(i + 1));
    assert(x == head + seq![x[i]] + tail);
    assert(y == head + seq![y[i]] + tail);
    lemma_fnv1a_add(start, head + seq![x[i]], tail);
    lemma_fnv1a_add(start, head + seq![y[i]], tail);
    assert((head + seq![x[i]]).drop_last() == head);
    assert((head + seq![y[i]]).drop_last() == head);
    let hash = fnv1a_from(start, head);
    lemma_step_tells(hash, hash, x[i], y[i]);
    lemma_bytes_keep_hashes_apart(fnv1a_step(hash, x[i]), fnv1a_step(hash, y[i]), tail);
    law_fingerprints_tell_model_and_hash(a, b);
}

/// The service is asked a limited number of times: after the last attempt there
/// is no other.
pub proof fn law_attempts_are_limited(attempt: u32, reply: Reply)
    requires
        attempt >= MAX_ATTEMPTS,
    ensures
        !(next_of(attempt, reply) is Retry),
{
}

/// Pauses never get shorter from one attempt to the next.
pub proof fn law_pauses_grow(attempt: u32, later: u32)
    requires
        attempt <= later,
    ensures
        250 <= pause(attempt) <= pause(later) <= 10_000,
{
    vstd::arithmetic::power2::lemma2_to64();
    assert(pause(0) == 250 && pause(1) == 500 && pause(2) == 1_000 && pause(3) == 2_000 && pause(4)
        == 4_000 && pause(5) == 8_000);
    if attempt >= 6 {
        assert(pause(attempt) == 10_000);
    }
    if later >= 6 {
        assert(pause(later) == 10_000);
    }
}

/// A policy that is a JSON document is taken as the document, and any other as
/// its text without the white space around it.
pub proof fn law_policies_are_documents_or_texts(text: Seq<char>)
    ensures
        json_parsed(encode_utf8(stripped(text, Class::Blank))) matches Ok(json) ==> document_of(text)
            == json,
        json_parsed(encode_utf8(stripped(text, Class::Blank))) is Err ==> document_of(text)
            == Json::Text(stripped(text, Class::Space)),
        is_document(text) <==> json_parsed(encode_utf8(stripped(text, Class::Blank))) is Ok,
{
}

/// The hash goes over all bytes, from the offset of FNV-1a on: each byte is
/// mixed in and the sum is multiplied by the prime, modulo two to the 64.
pub proof fn law_hashes_go_over_all_bytes(bytes: Seq<u8>, byte: u8)
    ensures
        fnv1a_of(Seq::<u8>::empty()) == 14695981039346656037,
        fnv1a_of(bytes.push(byte)) as int == ((fnv1a_of(bytes) ^ (byte as u64)) * 1099511628211)
            % 18446744073709551616,
{
    assert(bytes.push(byte).drop_last() == bytes);
}

/// A fingerprint is the model and the hash of all that the service is asked
/// with: the place, the questions and the policy, as they are sent.
pub proof fn law_fingerprints_hash_what_is_asked_with(jev: JevView)
    ensures
        jev.name() == jev.model + ":"@ + hex_text(
            fnv1a_of(
                encode_utf8(jev.url) + encode_utf8(json_text(jev.questions)) + encode_utf8(
                    json_text(jev.policy),
                ),
            ) as nat,
            16,
        ),
{
    lemma_utf8_add(jev.url, json_text(jev.questions));
    lemma_utf8_add(jev.url + json_text(jev.questions), json_text(jev.policy));
}

/// A request holds the model, the policy, the template and the questions, each
/// under its key, and nothing else.
pub proof fn law_requests_hold_policy_template_and_questions(
    jev: JevView,
    template: Seq<char>,
    key: Seq<char>,
)
    ensures
        jev.request(template).member("model"@) == Some(Json::Text(jev.model)),
        jev.request(template).member("questions"@) == Some(jev.questions),
        jev.request(template).member("state"@) matches Some(state) && state.member("policy"@)
            == Some(jev.policy) && (state.member("log"@) matches Some(log) && log.member(
            "template"@,
        ) == Some(Json::Text(template))),
        jev.request(template).member(key) is Some <==> key == "model"@ || key == "questions"@ || key
            == "state"@,
{
    reveal_strlit("model");
    reveal_strlit("state");
    reveal_strlit("questions");
    reveal_strlit("policy");
    reveal_strlit("log");
    assert("model"@.len() == 5 && "state"@.len() == 5 && "questions"@.len() == 9);
    assert("model"@[0] != "state"@[0]);
    assert("policy"@.len() != "log"@.len());
}

/// The service is asked at its path under the endpoint, whatever slashes the
/// endpoint ends with, with the key, the model and the policy that were given.
pub proof fn law_judges_hold_what_they_were_given(
    key: Seq<char>,
    model: Seq<char>,
    base: Seq<char>,
    slashes: Seq<char>,
    policy: Seq<char>,
)
    requires
        base.len() > 0 ==> base.last() != '/',
        forall|i: int| 0 <= i < slashes.len() ==> #[trigger] slashes[i] == '/',
    ensures
        jev_for(key, model, base + slashes, policy).url == base + "/v1/systemone"@,
        jev_for(key, model, base + slashes, policy).api_key == key,
        jev_for(key, model, base + slashes, policy).model == model,
        jev_for(key, model, base + slashes, policy).policy == document_of(policy),
        jev_for(key, model, base + slashes, policy).questions == document_of(QUESTIONS@),
{
    lemma_strip_end_added(base, slashes, Class::Slash);
}

/// Another try is worth it after a time-out, after too many requests, and after
/// the errors of a server that pass, and after no other status.
pub proof fn law_passing_statuses_are_retried(status: u16)
    ensures
        is_retryable(status) <==> seq![408u16, 429, 500, 502, 503, 504, 529].contains(status),
{
    let all = seq![408u16, 429, 500, 502, 503, 504, 529];
    assert(all[0] == 408 && all[1] == 429 && all[2] == 500 && all[3] == 502 && all[4] == 503
        && all[5] == 504 && all[6] == 529);
    if all.contains(status) {
        let i = choose|i: int| 0 <= i < 7 && all[i] == status;
        assert(i == 0 || i == 1 || i == 2 || i == 3 || i == 4 || i == 5 || i == 6);
    }
}

/// Pauses start at a quarter of a second and double with each attempt, up to ten
/// seconds.
pub proof fn law_pauses_double(attempt: u32)
    requires
        attempt < u32::MAX,
    ensures
        pause(0) == 250,
        2 * pause(attempt) <= 10_000 ==> pause((attempt + 1) as u32) == 2 * pause(attempt),
        2 * pause(attempt) > 10_000 ==> pause((attempt + 1) as u32) == 10_000,
{
    vstd::arithmetic::power2::lemma2_to64();
    assert(pause(0) == 250 && pause(1) == 500 && pause(2) == 1_000 && pause(3) == 2_000 && pause(4)
        == 4_000 && pause(5) == 8_000);
    if attempt >= 6 {
        assert(pause(attempt) == 10_000);
    }
    if attempt >= 5 {
        assert(pause((attempt + 1) as u32) == 10_000);
    }
}

/// An answer is read if it is a success. A status that passes and a request that
/// was lost are tried again before the sixth attempt, after the pause that the
/// service asks for, or else the usual one. Everything else ends the asking.
pub proof fn law_replies_are_read_retried_or_given_up(
    attempt: u32,
    status: u16,
    retry_after: Option<u64>,
)
    ensures
        ({
            let next = next_of(attempt, Reply::Answered { status, retry_after });
            &&& next is Read <==> 200 <= status < 300
            &&& next is Retry <==> is_retryable(status) && attempt < 6
            &&& next is Refused <==> !(200 <= status < 300) && (!is_retryable(status) || attempt
                >= 6)
            &&& next matches Next::Retry { nanos } ==> (match retry_after {
                Some(asked) => nanos == asked,
                None => nanos == pause(attempt) * 1_000_000,
            })
        }),
        attempt < 6 ==> next_of(attempt, Reply::Lost) == (Next::Retry {
            nanos: (pause(attempt) * 1_000_000) as u64,
        }),
        attempt >= 6 ==> next_of(attempt, Reply::Lost) == Next::Failed,
        next_of(attempt, Reply::Unmade) == Next::Failed,
{
    law_pauses_grow(attempt, attempt);
}

/// The service is asked at most six times, at its own address unless another is
/// given.
pub proof fn law_services_are_asked_so()
    ensures
        MAX_ATTEMPTS == 6,
        DEFAULT_ENDPOINT@ == "https://api.typesafe.ai"@,
{
}

} // verus!
