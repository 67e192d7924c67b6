//! Deterministic rule-based inference over prompts.
use vstd::prelude::*;
use vstd::string::StringExecFns;
use vstd::utf8::encode_utf8;
use crate::crypto::encoding::{hex_encode, hex_lower};
use crate::crypto::firewall::{blake3_of, SecurityFirewall};
use crate::crdt::merkle_dag::{AiEvidence, EvidenceView};
use crate::error::AimpResult;
use crate::protocol::envelope::Hash32;

verus! {

/// A decision reached by inference.
#[derive(Debug, Clone, PartialEq, Eq)]
pub struct AiDecision {
    pub target_entity: String,
    pub status: String,
    pub action_required: bool,
}

/// An engine that maps prompts to decisions.
pub trait InferenceEngine {
    fn infer(&self, prompt: &str) -> AimpResult<AiDecision>;

    fn model_hash(&self) -> [u8; 32];
}

/// A rule: when any keyword occurs in the prompt, both compared in
/// lowercase, decide.
#[derive(Debug, Clone)]
pub struct InferenceRule {
    pub keywords: Vec<String>,
    pub target: String,
    pub status: String,
    pub action_required: bool,
}

/// The lowercase form of a text, as `str::to_lowercase` computes it.
pub uninterp spec fn lowercase_of(s: Seq<char>) -> Seq<char>;

/// `str::to_lowercase`: its result is determined by the text alone.
#[verifier::external_body]
fn to_lower(s: &str) -> (r: String)
    ensures
        r@ == lowercase_of(s@),
{
    s.to_lowercase()
}

/// `needle` occurs in `hay` at position `i`.
pub open spec fn occurs_at(hay: Seq<u8>, needle: Seq<u8>, i: int) -> bool {
    0 <= i && i + needle.len() <= hay.len() && hay.subrange(i, i + needle.len()) == needle
}

/// `needle` occurs somewhere in `hay`.
pub open spec fn contains_bytes(hay: Seq<u8>, needle: Seq<u8>) -> bool {
    exists|i: int| occurs_at(hay, needle, i)
}

fn bytes_contain(hay: &[u8], needle: &[u8]) -> (r: bool)
    ensures
        r == contains_bytes(hay@, needle@),
{
    if needle.len() > hay.len() {
        proof {
            assert forall|i: int| !occurs_at(hay@, needle@, i) by {}
        }
        return false;
    }
    let mut i: usize = 0;
    while i <= hay.len() - needle.len()
        invariant
            needle@.len() <= hay@.len(),
            i <= hay@.len() - needle@.len() + 1,
            forall|k: int| 0 <= k < i ==> !occurs_at(hay@, needle@, k),
        decreases hay@.len() - needle@.len() + 1 - i,
    {
        let mut j: usize = 0;
        let mut same = true;
        let hl = hay.len();
        while j < needle.len()
            invariant
                hl == hay@.len(),
                i + needle@.len() <= hay@.len(),
                j <= needle@.len(),
                same == forall|t: int| 0 <= t < j ==> hay@[i + t] == needle@[t],
            decreases needle@.len() - j,
        {
            assert(i + j < hay@.len());
            let idx: usize = i + j;
            if hay[idx] != needle[j] {
                same = false;
            }
            j = j + 1;
        }
        if same {
            proof {
                assert(hay@.subrange(i as int, i + needle@.len()) =~= needle@);
                assert(occurs_at(hay@, needle@, i as int));
            }
            return true;
        }
        proof {
            assert(!occurs_at(hay@, needle@, i as int)) by {
                if occurs_at(hay@, needle@, i as int) {
                    assert forall|t: int| 0 <= t < needle@.len() implies hay@[i + t] == needle@[t] by {
                        assert(hay@.subrange(i as int, i + needle@.len())[t] == needle@[t]);
                    }
                }
            }
        }
        i = i + 1;
    }
    proof {
        assert forall|k: int| !occurs_at(hay@, needle@, k) by {
            if 0 <= k && k + needle@.len() <= hay@.len() {
                assert(k < i);
            }
        }
    }
    false
}

/// A rule matches the lowercased prompt text: the lowercase form of one of
/// its keywords occurs in it.
pub open spec fn rule_matches(r: InferenceRule, lower: Seq<char>) -> bool {
    exists|k: int|
        0 <= k < r.keywords@.len() && contains_bytes(
            encode_utf8(lower),
            encode_utf8(lowercase_of(#[trigger] r.keywords@[k]@)),
        )
}

/// Index of the first rule among the first `n` that matches, if any.
pub open spec fn first_match(rules: Seq<InferenceRule>, lower: Seq<char>, n: int) -> Option<int>
    decreases n,
{
    if n <= 0 {
        None
    } else {
        match first_match(rules, lower, n - 1) {
            Some(i) => Some(i),
            None => if rule_matches(rules[n - 1], lower) {
                Some(n - 1)
            } else {
                None
            },
        }
    }
}

proof fn lemma_first_match_stable(rules: Seq<InferenceRule>, lower: Seq<char>, i: int, n: int)
    requires
        0 <= i < n,
        first_match(rules, lower, i) is None,
        rule_matches(rules[i], lower),
    ensures
        first_match(rules, lower, n) == Some(i),
    decreases n,
{
    if n > i + 1 {
        lemma_first_match_stable(rules, lower, i, n - 1);
    }
}

/// The built-in rules: keywords, target, status, whether action is required.
pub open spec fn default_rule_table() -> Seq<(Seq<Seq<char>>, Seq<char>, Seq<char>, bool)> {
    seq![
        (
            seq!["error"@, "failure"@, "fault"@, "critical"@, "danger"@],
            "system_alert"@,
            "CRITICAL"@,
            true,
        ),
        (seq!["valve"@, "pressure"@, "flow"@], "hydraulic_system"@, "WARNING"@, true),
        (seq!["north"@, "nord"@], "sector_north"@, "NORMAL"@, false),
        (seq!["south"@, "sud"@], "sector_south"@, "NORMAL"@, false),
    ]
}

/// The contents of a rule.
pub open spec fn rule_view(r: InferenceRule) -> (Seq<Seq<char>>, Seq<char>, Seq<char>, bool) {
    (r.keywords@.map_values(|s: String| s@), r.target@, r.status@, r.action_required)
}

/// Keyword-based deterministic inference engine.
pub struct RuleEngine {
    rules: Vec<InferenceRule>,
    version: String,
}

fn strings(items: &[&str]) -> (r: Vec<String>)
    ensures
        r@.map_values(|s: String| s@) == items@.map_values(|s: &str| s@),
{
    let mut r: Vec<String> = Vec::new();
    let mut i: usize = 0;
    while i < items.len()
        invariant
            i <= items@.len(),
            r@.map_values(|s: String| s@) == items@.take(i as int).map_values(|s: &str| s@),
        decreases items@.len() - i,
    {
        let ghost r0 = r@;
        let x = String::from_str(items[i]);
        r.push(x);
        proof {
            assert(r@ == r0.push(x));
            assert(items@.take(i + 1) =~= items@.take(i as int).push(items@[i as int]));
            assert(r@.map_values(|s: String| s@) =~= r0.map_values(|s: String| s@).push(x@));
            assert(items@.take(i + 1).map_values(|s: &str| s@) =~= items@.take(i as int).map_values(
                |s: &str| s@,
            ).push(items@[i as int]@));
        }
        i = i + 1;
    }
    proof {
        assert(items@.take(i as int) =~= items@);
    }
    r
}

fn rule(keywords: &[&str], target: &str, status: &str, action_required: bool) -> (r: InferenceRule)
    ensures
        rule_view(r) == (keywords@.map_values(|s: &str| s@), target@, status@, action_required),
{
    InferenceRule {
        keywords: strings(keywords),
        target: String::from_str(target),
        status: String::from_str(status),
        action_required,
    }
}

impl RuleEngine {
    /// The rules, in order.
    pub closed spec fn rules_view(&self) -> Seq<InferenceRule> {
        self.rules@
    }

    /// The version text.
    pub closed spec fn version_view(&self) -> Seq<char> {
        self.version@
    }

    pub fn new(rules: Vec<InferenceRule>, version: String) -> (r: Self)
        ensures
            r.rules_view() == rules@,
            r.version_view() == version@,
    {
        RuleEngine { rules, version }
    }

    /// The built-in rules, version "rules.v2.default".
    pub fn default_rules() -> (r: Self)
        ensures
            r.rules_view().map_values(|x: InferenceRule| rule_view(x)) == default_rule_table(),
            r.version_view() == "rules.v2.default"@,
    {
        let k0 = ["error", "failure", "fault", "critical", "danger"];
        let k1 = ["valve", "pressure", "flow"];
        let k2 = ["north", "nord"];
        let k3 = ["south", "sud"];
        proof {
            assert(k0@.map_values(|s: &str| s@) =~= seq![
                "error"@,
                "failure"@,
                "fault"@,
                "critical"@,
                "danger"@,
            ]);
            assert(k1@.map_values(|s: &str| s@) =~= seq!["valve"@, "pressure"@, "flow"@]);
            assert(k2@.map_values(|s: &str| s@) =~= seq!["north"@, "nord"@]);
            assert(k3@.map_values(|s: &str| s@) =~= seq!["south"@, "sud"@]);
        }
        let r0 = rule(&k0, "system_alert", "CRITICAL", true);
        let r1 = rule(&k1, "hydraulic_system", "WARNING", true);
        let r2 = rule(&k2, "sector_north", "NORMAL", false);
        let r3 = rule(&k3, "sector_south", "NORMAL", false);
        let mut rules: Vec<InferenceRule> = Vec::new();
        rules.push(r0);
        rules.push(r1);
        rules.push(r2);
        rules.push(r3);
        let r = Self::new(rules, String::from_str("rules.v2.default"));
        proof {
            assert(r.rules_view() =~= seq![r0, r1, r2, r3]);
            assert(r.rules_view().map_values(|x: InferenceRule| rule_view(x))
                =~= default_rule_table());
        }
        r
    }

    /// The version text of rules read from a file with the given content:
    /// "rules.file." followed by the hex of the first four bytes of the
    /// content's hash.
    pub fn file_version(content: &str) -> (r: String)
        ensures
            r@ == "rules.file."@ + hex_lower(blake3_of(encode_utf8(content@))@.take(4)),
    {
        let h = SecurityFirewall::hash(content.as_bytes());
        let head: [u8; 4] = [h[0], h[1], h[2], h[3]];
        let hx = hex_encode(&head);
        proof {
            assert(head@ =~= h@.take(4));
        }
        String::from_str("rules.file.").concat(hx.as_str())
    }

    /// The decision for a prompt already in lowercase: the first rule with a
    /// keyword whose lowercase form occurs in `lower` decides; with none, the
    /// decision is "generic_entity", "NORMAL", no action.
    pub fn infer_lowered(&self, lower: &String) -> (d: AiDecision)
        ensures
            match first_match(self.rules_view(), lower@, self.rules_view().len() as int) {
                Some(i) => d.target_entity@ == self.rules_view()[i].target@ && d.status@
                    == self.rules_view()[i].status@ && d.action_required
                    == self.rules_view()[i].action_required,
                None => d.target_entity@ == "generic_entity"@ && d.status@ == "NORMAL"@
                    && !d.action_required,
            },
    {
        let mut i: usize = 0;
        while i < self.rules.len()
            invariant
                i <= self.rules@.len(),
                first_match(self.rules@, lower@, i as int) is None,
            decreases self.rules@.len() - i,
        {
            let rule = &self.rules[i];
            if Self::matches(rule, lower) {
                proof {
                    lemma_first_match_stable(self.rules@, lower@, i as int, self.rules@.len() as int);
                }
                return AiDecision {
                    target_entity: rule.target.clone(),
                    status: rule.status.clone(),
                    action_required: rule.action_required,
                };
            }
            i = i + 1;
        }
        AiDecision {
            target_entity: String::from_str("generic_entity"),
            status: String::from_str("NORMAL"),
            action_required: false,
        }
    }

    /// Whether any keyword of the rule occurs in the text.
    fn matches(rule: &InferenceRule, lower: &String) -> (r: bool)
        ensures
            r == rule_matches(*rule, lower@),
    {
        let hay = lower.as_str().as_bytes();
        let mut k: usize = 0;
        while k < rule.keywords.len()
            invariant
                k <= rule.keywords@.len(),
                hay@ == encode_utf8(lower@),
                forall|t: int|
                    0 <= t < k ==> !contains_bytes(
                        encode_utf8(lower@),
                        encode_utf8(lowercase_of(#[trigger] rule.keywords@[t]@)),
                    ),
            decreases rule.keywords@.len() - k,
        {
            let keyword = to_lower(rule.keywords[k].as_str());
            if bytes_contain(hay, keyword.as_str().as_bytes()) {
                return true;
            }
            k = k + 1;
        }
        false
    }
}

impl InferenceEngine for RuleEngine {
    /// The first rule with a keyword whose lowercase form occurs in the
    /// lowercased prompt decides; with none, the decision is "generic_entity", "NORMAL", no
    /// action.
    fn infer(&self, prompt: &str) -> (r: AimpResult<AiDecision>)
        ensures
            r matches Ok(d) && match first_match(
                self.rules_view(),
                lowercase_of(prompt@),
                self.rules_view().len() as int,
            ) {
                Some(i) => d.target_entity@ == self.rules_view()[i].target@ && d.status@
                    == self.rules_view()[i].status@ && d.action_required
                    == self.rules_view()[i].action_required,
                None => d.target_entity@ == "generic_entity"@ && d.status@ == "NORMAL"@
                    && !d.action_required,
            },
    {
        let lower = to_lower(prompt);
        Ok(self.infer_lowered(&lower))
    }

    /// BLAKE3 of the version text.
    fn model_hash(&self) -> (r: [u8; 32])
        ensures
            r == blake3_of(encode_utf8(self.version_view())),
    {
        SecurityFirewall::hash(self.version.as_str().as_bytes())
    }
}

/// The JSON text that serde_json writes for the ordered map (`BTreeMap`)
/// holding `key1` with a JSON bool and `key2` with a JSON string.
pub uninterp spec fn json_map_text(key1: Seq<char>, flag: bool, key2: Seq<char>, text: Seq<char>) -> Seq<char>;

/// `serde_json::to_string` of the ordered map `{key1: flag, key2: text}`;
/// its text depends on the four values alone. It succeeds: serde_json
/// documents as its only failures a `Serialize` impl that fails and a map
/// with non-string keys, and here the keys are strings and the values a
/// JSON bool and a JSON string, written into a vector.
#[verifier::external_body]
fn json_map(key1: &str, flag: bool, key2: &str, text: &str) -> (r: Option<String>)
    ensures
        r is Some,
        r matches Some(s) ==> s@ == json_map_text(key1@, flag, key2@, text@),
{
    let mut map = std::collections::BTreeMap::new();
    map.insert(key1.to_string(), serde_json::Value::Bool(flag));
    map.insert(key2.to_string(), serde_json::Value::String(text.to_string()));
    serde_json::to_string(&map).ok()
}

/// The JSON text of a decision: the map `{"action": .., "status": ..}`.
pub open spec fn decision_json(action: bool, status: Seq<char>) -> Seq<char> {
    json_map_text("action"@, action, "status"@, status)
}

/// The JSON text of a decision's action flag and status.
fn decision_to_json(action: bool, status: &str) -> (r: Option<String>)
    ensures
        r is Some,
        r matches Some(s) ==> s@ == decision_json(action, status@),
{
    json_map("action", action, "status", status)
}

/// What a node commits for an inference it made: the decision's JSON, its
/// hash as the payload hash, the vector clock of the node at `tick`, and
/// the evidence.
pub struct InferenceMutation {
    pub decision_json: String,
    pub data_hash: Hash32,
    pub vclock: Vec<(String, u64)>,
    pub evidence: AiEvidence,
}

/// The mutation recording `json` as the decision on `prompt`: payload hash
/// BLAKE3 of the JSON's UTF-8 bytes, vector clock `{hex of the first 4
/// bytes of the node id: tick}`, and the evidence (prompt, JSON, model
/// hash, time).
pub fn mutation_from_json(
    json: String,
    prompt: &String,
    node_id: &[u8; 32],
    tick: u64,
    model_hash: Hash32,
    timestamp: u64,
) -> (r: InferenceMutation)
    ensures
        r.decision_json@ == json@,
        r.data_hash == blake3_of(encode_utf8(json@)),
        r.vclock@.len() == 1,
        r.vclock@[0].0@ == hex_lower(node_id@.take(4)),
        r.vclock@[0].1 == tick,
        r.evidence@ == (EvidenceView {
            prompt: prompt@,
            decision: json@,
            model_hash,
            timestamp,
        }),
{
    let data_hash = SecurityFirewall::hash(json.as_str().as_bytes());
    let key_bytes: [u8; 4] = [node_id[0], node_id[1], node_id[2], node_id[3]];
    proof {
        assert(key_bytes@ =~= node_id@.take(4));
    }
    let key = hex_encode(&key_bytes);
    let mut vclock: Vec<(String, u64)> = Vec::new();
    vclock.push((key, tick));
    let evidence = AiEvidence { prompt: prompt.clone(), decision: json.clone(), model_hash, timestamp };
    InferenceMutation { decision_json: json, data_hash, vclock, evidence }
}

/// The mutation for a decision on `prompt` (see `mutation_from_json`),
/// with the decision written as JSON; it is always made.
pub fn inference_mutation(
    decision: &AiDecision,
    prompt: &String,
    node_id: &[u8; 32],
    tick: u64,
    model_hash: Hash32,
    timestamp: u64,
) -> (r: Option<InferenceMutation>)
    ensures
        r is Some,
        r matches Some(m) ==> {
            let json = decision_json(decision.action_required, decision.status@);
            &&& m.decision_json@ == json
            &&& m.data_hash == blake3_of(encode_utf8(json))
            &&& m.vclock@.len() == 1
            &&& m.vclock@[0].0@ == hex_lower(node_id@.take(4))
            &&& m.vclock@[0].1 == tick
            &&& m.evidence@ == (EvidenceView {
                prompt: prompt@,
                decision: json,
                model_hash,
                timestamp,
            })
        },
{
    match decision_to_json(decision.action_required, decision.status.as_str()) {
        Some(json) => Some(mutation_from_json(json, prompt, node_id, tick, model_hash, timestamp)),
        None => None,
    }
}

} // verus!
