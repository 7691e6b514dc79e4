//! Verdicts on templates, and the keyword rules that judge without a service.
use regex::Regex;
use vstd::prelude::*;

use crate::order::Score;
use crate::pattern::{compile, is_match, pattern_is_valid, pattern_matches, pattern_of};

verus! {

/// What a judge says of a template.
#[derive(Debug, Clone, PartialEq)]
pub struct Verdict {
    /// How sure the judge is that the policy says to page for the event.
    pub pageable: Score,
    /// How sure the judge is that the line is detail of another message.
    pub detail: Score,
    pub severity: Score,
    pub area: String,
    /// The product of `pageable` and one minus `detail`, in single precision.
    pub attention: Score,
}

/// What a verdict holds.
pub struct VerdictView {
    pub pageable: Score,
    pub detail: Score,
    pub severity: Score,
    pub area: Seq<char>,
    pub attention: Score,
}

impl View for Verdict {
    type V = VerdictView;

    open spec fn view(&self) -> VerdictView {
        VerdictView {
            pageable: self.pageable,
            detail: self.detail,
            severity: self.severity,
            area: self.area@,
            attention: self.attention,
        }
    }
}

/// Whether `score` is a number from zero to the score with the bits `most`.
pub open spec fn in_range(score: Score, most: u32) -> bool {
    score.reaches(Score { bits: 0 }) && (Score { bits: most }).reaches(score)
}

/// The bits of the scores that bound verdicts, and that keywords give.
pub const ZERO: u32 = 0x0000_0000;

pub const ONE: u32 = 0x3f80_0000;

pub const TWO: u32 = 0x4000_0000;

pub const THREE: u32 = 0x4040_0000;

/// The bits of 0.9, 0.7, 0.3 and 0.05, in single precision.
pub const NINE_TENTHS: u32 = 0x3f66_6666;

pub const SEVEN_TENTHS: u32 = 0x3f33_3333;

pub const THREE_TENTHS: u32 = 0x3e99_999a;

pub const ONE_TWENTIETH: u32 = 0x3d4c_cccd;

impl VerdictView {
    /// Whether all scores are in their ranges.
    pub open spec fn valid(self) -> bool {
        &&& in_range(self.pageable, ONE)
        &&& in_range(self.detail, ONE)
        &&& in_range(self.severity, THREE)
    }
}

impl Verdict {
    /// How much attention the event deserves.
    pub fn attention(&self) -> (score: Score)
        ensures
            score == self@.attention,
    {
        self.attention
    }

    /// Whether the probabilities lie in zero to one, and the severity in zero
    /// to three.
    pub fn is_valid(&self) -> (valid: bool)
        ensures
            valid == self@.valid(),
    {
        let zero = Score { bits: ZERO };
        let one = Score { bits: ONE };
        let three = Score { bits: THREE };
        self.pageable.at_least(zero) && one.at_least(self.pageable) && self.detail.at_least(zero)
            && one.at_least(self.detail) && self.severity.at_least(zero) && three.at_least(
            self.severity,
        )
    }

    /// A copy of the verdict.
    pub fn copy(&self) -> (copy: Verdict)
        ensures
            copy@ == self@,
    {
        Verdict {
            pageable: self.pageable,
            detail: self.detail,
            severity: self.severity,
            area: self.area.clone(),
            attention: self.attention,
        }
    }
}

/// A verdict, and what it took to get it.
#[derive(Debug, Clone)]
pub struct Judged {
    pub verdict: Verdict,
    pub input_tokens: u64,
    pub model: String,
}

/// Words of events that need someone at once.
pub const CRITICAL: &'static str =
    r"(?i)\b(fatal|panic|critical|emerg\w*|segfault|segmentation fault|out of memory|oom|corrupt\w*|data loss)\b";

/// Words of failures.
pub const ERROR: &'static str =
    r"(?i)\b(err|error|errors|fail|failed|failure|failures|exception|refused|denied|unreachable|abort\w*|timed? ?out|unavailable|crash\w*)\b";

/// Words of trouble that may pass.
pub const WARNING: &'static str = r"(?i)\b(warn|warning|retry\w*|degraded|slow|deprecated)\b";

/// Words of each area.
pub const SECURITY: &'static str =
    r"(?i)\b(auth\w*|login|password|permission|unauthori[sz]ed|forbidden|certificate|ssh|sudo)\b";

pub const STORAGE: &'static str =
    r"(?i)\b(disk|filesystem|volume|mount|nfs|lustre|i/o|database|replica\w*)\b";

pub const NETWORK: &'static str =
    r"(?i)\b(network|connection|socket|dns|tcp|udp|http|link|unreachable|timed? ?out)\b";

pub const HARDWARE: &'static str =
    r"(?i)\b(cpu|memory|ecc|parity|fan|temperature|power|hardware|node card|interconnect)\b";

pub const OPERATING_SYSTEM: &'static str =
    r"(?i)\b(kernel|driver|process|daemon|systemd|cron\w*|pid)\b";

/// How pageable and how severe a text is that has words of each kind, or not.
pub open spec fn level_for(critical: bool, error: bool, warning: bool) -> (Score, Score) {
    if critical {
        (Score { bits: NINE_TENTHS }, Score { bits: THREE })
    } else if error {
        (Score { bits: SEVEN_TENTHS }, Score { bits: TWO })
    } else if warning {
        (Score { bits: THREE_TENTHS }, Score { bits: ONE })
    } else {
        (Score { bits: ONE_TWENTIETH }, Score { bits: ZERO })
    }
}

/// How pageable and how severe a text is that has words of each kind, or not.
pub fn grade(critical: bool, error: bool, warning: bool) -> (level: (Score, Score))
    ensures
        level == level_for(critical, error, warning),
{
    if critical {
        (Score { bits: NINE_TENTHS }, Score { bits: THREE })
    } else if error {
        (Score { bits: SEVEN_TENTHS }, Score { bits: TWO })
    } else if warning {
        (Score { bits: THREE_TENTHS }, Score { bits: ONE })
    } else {
        (Score { bits: ONE_TWENTIETH }, Score { bits: ZERO })
    }
}

/// The first area that a text has a word of.
pub open spec fn area_for(
    security: bool,
    storage: bool,
    network: bool,
    hardware: bool,
    operating_system: bool,
) -> Seq<char> {
    if security {
        "security"@
    } else if storage {
        "storage"@
    } else if network {
        "network"@
    } else if hardware {
        "hardware"@
    } else if operating_system {
        "operating_system"@
    } else {
        "application"@
    }
}

/// The first area that a text has a word of.
pub fn first_area(
    security: bool,
    storage: bool,
    network: bool,
    hardware: bool,
    operating_system: bool,
) -> (area: &'static str)
    ensures
        area@ == area_for(security, storage, network, hardware, operating_system),
{
    if security {
        "security"
    } else if storage {
        "storage"
    } else if network {
        "network"
    } else if hardware {
        "hardware"
    } else if operating_system {
        "operating_system"
    } else {
        "application"
    }
}

/// How pageable and how severe `text` is by its words.
pub open spec fn keyword_level(text: Seq<char>) -> (Score, Score) {
    level_for(
        pattern_matches(CRITICAL@, text),
        pattern_matches(ERROR@, text),
        pattern_matches(WARNING@, text),
    )
}

/// The first area that `text` has a word of.
pub open spec fn keyword_area(text: Seq<char>) -> Seq<char> {
    area_for(
        pattern_matches(SECURITY@, text),
        pattern_matches(STORAGE@, text),
        pattern_matches(NETWORK@, text),
        pattern_matches(HARDWARE@, text),
        pattern_matches(OPERATING_SYSTEM@, text),
    )
}

/// The verdict on `text` by its words. Nothing is taken to be detail, so the
/// attention is how pageable the text is.
pub open spec fn keyword_verdict(text: Seq<char>) -> VerdictView {
    VerdictView {
        pageable: keyword_level(text).0,
        detail: Score { bits: ZERO },
        severity: keyword_level(text).1,
        area: keyword_area(text),
        attention: keyword_level(text).0,
    }
}

/// Whether all expressions of the rules compile.
pub open spec fn rules_compile() -> bool {
    &&& pattern_is_valid(CRITICAL@)
    &&& pattern_is_valid(ERROR@)
    &&& pattern_is_valid(WARNING@)
    &&& pattern_is_valid(SECURITY@)
    &&& pattern_is_valid(STORAGE@)
    &&& pattern_is_valid(NETWORK@)
    &&& pattern_is_valid(HARDWARE@)
    &&& pattern_is_valid(OPERATING_SYSTEM@)
}

/// Judges by keywords.
pub struct Rules {
    critical: Regex,
    error: Regex,
    warning: Regex,
    security: Regex,
    storage: Regex,
    network: Regex,
    hardware: Regex,
    operating_system: Regex,
}

impl Rules {
    #[verifier::type_invariant]
    spec fn looks_for_keywords(self) -> bool {
        &&& pattern_of(self.critical) == CRITICAL@
        &&& pattern_of(self.error) == ERROR@
        &&& pattern_of(self.warning) == WARNING@
        &&& pattern_of(self.security) == SECURITY@
        &&& pattern_of(self.storage) == STORAGE@
        &&& pattern_of(self.network) == NETWORK@
        &&& pattern_of(self.hardware) == HARDWARE@
        &&& pattern_of(self.operating_system) == OPERATING_SYSTEM@
    }

    /// The rules, if their expressions compile.
    pub fn new() -> (rules: Option<Rules>)
        ensures
            rules is Some <==> rules_compile(),
    {
        let critical = compile(CRITICAL)?;
        let error = compile(ERROR)?;
        let warning = compile(WARNING)?;
        let security = compile(SECURITY)?;
        let storage = compile(STORAGE)?;
        let network = compile(NETWORK)?;
        let hardware = compile(HARDWARE)?;
        let operating_system = compile(OPERATING_SYSTEM)?;
        Some(
            Rules {
                critical,
                error,
                warning,
                security,
                storage,
                network,
                hardware,
                operating_system,
            },
        )
    }

    /// How pageable and how severe `text` is by its words.
    pub fn level(&self, text: &str) -> (level: (Score, Score))
        ensures
            level == keyword_level(text@),
    {
        proof {
            use_type_invariant(self);
        }
        grade(
            is_match(&self.critical, text),
            is_match(&self.error, text),
            is_match(&self.warning, text),
        )
    }

    /// The first area that `text` has a word of.
    fn area(&self, text: &str) -> (area: &'static str)
        ensures
            area@ == keyword_area(text@),
    {
        proof {
            use_type_invariant(self);
        }
        first_area(
            is_match(&self.security, text),
            is_match(&self.storage, text),
            is_match(&self.network, text),
            is_match(&self.hardware, text),
            is_match(&self.operating_system, text),
        )
    }

    /// The verdict on `text` by its words.
    pub fn verdict(&self, text: &str) -> (verdict: Verdict)
        ensures
            verdict@ == keyword_verdict(text@),
    {
        let (pageable, severity) = self.level(text);
        Verdict {
            pageable,
            detail: Score { bits: ZERO },
            severity,
            area: self.area(text).to_string(),
            attention: pageable,
        }
    }

    /// The name of the rules, which tells their verdicts from those of others.
    pub fn fingerprint(&self) -> (name: String)
        ensures
            name@ == "rules-v1"@,
    {
        "rules-v1".to_string()
    }

    /// The verdict on `template` by its words, which takes no tokens.
    pub fn judge(&self, template: &str) -> (judged: Judged)
        ensures
            judged.verdict@ == keyword_verdict(template@),
            judged.input_tokens == 0,
            judged.model@ == "rules"@,
    {
        Judged { verdict: self.verdict(template), input_tokens: 0, model: "rules".to_string() }
    }
}

/// Keyword verdicts are valid, so one can stand in wherever a judge fails.
pub proof fn law_keyword_verdicts_are_valid(text: Seq<char>)
    ensures
        keyword_verdict(text).valid(),
{
}

/// Graver keywords never get a lower score than milder ones: the pageable score
/// and the severity rise together.
pub proof fn law_keyword_scores_rise_together(a: Seq<char>, b: Seq<char>)
    ensures
        keyword_level(a).0.rank() < keyword_level(b).0.rank() <==> keyword_level(a).1.rank()
            < keyword_level(b).1.rank(),
{
}

/// The gravest words of a text decide its scores, whatever milder words it has:
/// 0.9 and 3 with critical words, else 0.7 and 2 with words of failure, else 0.3
/// and 1 with words of trouble, and else 0.05 and 0.
pub proof fn law_gravest_words_decide_the_level(text: Seq<char>)
    ensures
        pattern_matches(CRITICAL@, text) ==> keyword_level(text) == (
            Score { bits: 0x3f66_6666 },
            Score { bits: 0x4040_0000 },
        ),
        !pattern_matches(CRITICAL@, text) && pattern_matches(ERROR@, text) ==> keyword_level(text)
            == (Score { bits: 0x3f33_3333 }, Score { bits: 0x4000_0000 }),
        !pattern_matches(CRITICAL@, text) && !pattern_matches(ERROR@, text) && pattern_matches(
            WARNING@,
            text,
        ) ==> keyword_level(text) == (Score { bits: 0x3e99_999a }, Score { bits: 0x3f80_0000 }),
        !pattern_matches(CRITICAL@, text) && !pattern_matches(ERROR@, text) && !pattern_matches(
            WARNING@,
            text,
        ) ==> keyword_level(text) == (Score { bits: 0x3d4c_cccd }, Score { bits: 0 }),
{
}

/// More words never lower a score: a text with all kinds of words that another
/// has scores at least as high.
pub proof fn law_more_words_never_lower_a_score(less: Seq<char>, more: Seq<char>)
    requires
        pattern_matches(CRITICAL@, less) ==> pattern_matches(CRITICAL@, more),
        pattern_matches(ERROR@, less) ==> pattern_matches(ERROR@, more),
        pattern_matches(WARNING@, less) ==> pattern_matches(WARNING@, more),
    ensures
        keyword_verdict(more).pageable.bits >= keyword_verdict(less).pageable.bits,
        keyword_verdict(more).severity.bits >= keyword_verdict(less).severity.bits,
        keyword_verdict(more).attention.bits >= keyword_verdict(less).attention.bits,
{
}

/// The gravest kind of words decides, whatever milder kinds there are, and graver
/// kinds score higher.
pub proof fn law_gravest_kind_decides(critical: bool, error: bool, warning: bool)
    ensures
        critical ==> level_for(critical, error, warning).0.bits == 0x3f66_6666 && level_for(
            critical,
            error,
            warning,
        ).1.bits == 0x4040_0000,
        level_for(true, error, warning).0.bits > level_for(false, true, warning).0.bits
            > level_for(false, false, true).0.bits > level_for(false, false, false).0.bits,
        level_for(true, error, warning).1.bits > level_for(false, true, warning).1.bits
            > level_for(false, false, true).1.bits > level_for(false, false, false).1.bits,
        level_for(false, true, warning).0.bits == 0x3f33_3333,
        level_for(false, true, warning).1.bits == 0x4000_0000,
        level_for(false, false, true).0.bits == 0x3e99_999a,
        level_for(false, false, true).1.bits == 0x3f80_0000,
        level_for(false, false, false).0.bits == 0x3d4c_cccd,
        level_for(false, false, false).1.bits == 0,
{
}

/// The area is the first of security, storage, network, hardware and operating
/// system that the text has a word of, and else the application.
pub proof fn law_first_area_with_a_word_counts(text: Seq<char>)
    ensures
        pattern_matches(SECURITY@, text) ==> keyword_area(text) == "security"@,
        pattern_matches(STORAGE@, text) ==> keyword_area(text) == "storage"@ || pattern_matches(
            SECURITY@,
            text,
        ),
        pattern_matches(NETWORK@, text) ==> keyword_area(text) == "network"@ || pattern_matches(
            SECURITY@,
            text,
        ) || pattern_matches(STORAGE@, text),
        pattern_matches(HARDWARE@, text) ==> keyword_area(text) == "hardware"@ || pattern_matches(
            SECURITY@,
            text,
        ) || pattern_matches(STORAGE@, text) || pattern_matches(NETWORK@, text),
        pattern_matches(OPERATING_SYSTEM@, text) ==> keyword_area(text) == "operating_system"@
            || pattern_matches(SECURITY@, text) || pattern_matches(STORAGE@, text)
            || pattern_matches(NETWORK@, text) || pattern_matches(HARDWARE@, text),
        !pattern_matches(SECURITY@, text) && !pattern_matches(STORAGE@, text) && !pattern_matches(
            NETWORK@,
            text,
        ) && !pattern_matches(HARDWARE@, text) && !pattern_matches(OPERATING_SYSTEM@, text)
            ==> keyword_area(text) == "application"@,
{
}

/// A keyword verdict takes nothing to be detail, so it deserves just the
/// attention that it is pageable, and it holds the level and the area of its
/// text.
pub proof fn law_keyword_verdicts_hold_level_and_area(text: Seq<char>)
    ensures
        keyword_verdict(text).detail.bits == 0,
        keyword_verdict(text).attention == keyword_verdict(text).pageable,
        keyword_verdict(text).pageable == keyword_level(text).0,
        keyword_verdict(text).severity == keyword_level(text).1,
        keyword_verdict(text).area == keyword_area(text),
{
}

/// A verdict is valid exactly if both probabilities lie in zero to one and the
/// severity in zero to three, where a negative zero counts as zero.
pub proof fn law_valid_verdicts_are_in_range(verdict: VerdictView)
    ensures
        verdict.valid() <==> {
            &&& verdict.pageable.bits <= 0x3f80_0000 || verdict.pageable.bits == 0x8000_0000
            &&& verdict.detail.bits <= 0x3f80_0000 || verdict.detail.bits == 0x8000_0000
            &&& verdict.severity.bits <= 0x4040_0000 || verdict.severity.bits == 0x8000_0000
        },
{
}

/// A verdict shows all that it holds.
pub proof fn law_verdicts_show_what_they_hold(verdict: Verdict)
    ensures
        verdict@.pageable == verdict.pageable,
        verdict@.detail == verdict.detail,
        verdict@.severity == verdict.severity,
        verdict@.area == verdict.area@,
        verdict@.attention == verdict.attention,
{
}

/// The words that the rules look for.
pub proof fn law_rules_look_for_these_words()
    ensures
        CRITICAL@
            == r"(?i)\b(fatal|panic|critical|emerg\w*|segfault|segmentation fault|out of memory|oom|corrupt\w*|data loss)\b"@,
        ERROR@
            == r"(?i)\b(err|error|errors|fail|failed|failure|failures|exception|refused|denied|unreachable|abort\w*|timed? ?out|unavailable|crash\w*)\b"@,
        WARNING@ == r"(?i)\b(warn|warning|retry\w*|degraded|slow|deprecated)\b"@,
        SECURITY@
            == r"(?i)\b(auth\w*|login|password|permission|unauthori[sz]ed|forbidden|certificate|ssh|sudo)\b"@,
        STORAGE@
            == r"(?i)\b(disk|filesystem|volume|mount|nfs|lustre|i/o|database|replica\w*)\b"@,
        NETWORK@
            == r"(?i)\b(network|connection|socket|dns|tcp|udp|http|link|unreachable|timed? ?out)\b"@,
        HARDWARE@
            == r"(?i)\b(cpu|memory|ecc|parity|fan|temperature|power|hardware|node card|interconnect)\b"@,
        OPERATING_SYSTEM@ == r"(?i)\b(kernel|driver|process|daemon|systemd|cron\w*|pid)\b"@,
{
}

/// The rules can be had if each of their eight expressions compiles.
pub proof fn law_rules_need_all_expressions()
    ensures
        rules_compile() <==> pattern_is_valid(CRITICAL@) && pattern_is_valid(ERROR@)
            && pattern_is_valid(WARNING@) && pattern_is_valid(SECURITY@) && pattern_is_valid(
            STORAGE@,
        ) && pattern_is_valid(NETWORK@) && pattern_is_valid(HARDWARE@) && pattern_is_valid(
            OPERATING_SYSTEM@,
        ),
{
}

} // verus!
