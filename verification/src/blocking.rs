//! The ad-block rule engine: rules in the `declarativeNetRequest` format,
//! the host patterns extracted from them, and the check of a URL against
//! those patterns.

use vstd::prelude::*;
use vstd::string::*;
use crate::text::{
    has_substring, lowercase, str_contains, strip_leading, strip_trailing, to_lowercase,
    trim_end_matches, trim_start_matches,
};

verus! {

/// One blocking rule of `rules.json`.
pub struct BlockRule {
    /// The URL filter pattern, such as `||doubleclick.net^`.
    pub url_filter: Option<String>,
    /// Domains blocked outright.
    pub domains: Vec<String>,
    /// Resource types the rule applies to (every rule applies to all of them).
    pub resource_types: Vec<String>,
}

/// The contents of `rules.json`.
pub struct RulesFile {
    pub rules: Vec<BlockRule>,
}

/// The characters of each string of a sequence.
pub open spec fn string_views(v: Seq<String>) -> Seq<Seq<char>> {
    v.map_values(|s: String| s@)
}

/// The characters of an optional string.
pub open spec fn option_view(o: Option<String>) -> Option<Seq<char>> {
    match o {
        Some(s) => Some(s@),
        None => None,
    }
}

/// The host pattern that a URL filter stands for: the filter without its
/// leading `||` and `*` anchors and its trailing `^` separators, in lowercase.
pub open spec fn cleaned_filter(f: Seq<char>) -> Seq<char> {
    lowercase(filter_without_anchors(f))
}

/// A URL filter without its leading `||` and `*` anchors and its trailing `^`
/// separators.
pub open spec fn filter_without_anchors(f: Seq<char>) -> Seq<char> {
    strip_trailing(strip_leading(strip_leading(f, seq!['|', '|']), seq!['*']), '^')
}

/// The host patterns after the lowercase domains and the filter host of one
/// rule: the domains are appended, then the filter host unless it is empty or
/// already present.
pub open spec fn add_hosts(
    hosts: Seq<Seq<char>>,
    domains: Seq<Seq<char>>,
    filter_host: Option<Seq<char>>,
) -> Seq<Seq<char>> {
    let with_domains = hosts + domains;
    match filter_host {
        Some(c) => if c.len() > 0 && !with_domains.contains(c) {
            with_domains.push(c)
        } else {
            with_domains
        },
        None => with_domains,
    }
}

/// The lowercase domains of a rule.
pub open spec fn lowercase_domains(rule: BlockRule) -> Seq<Seq<char>> {
    rule.domains@.map_values(|d: String| lowercase(d@))
}

/// The host of a rule's URL filter, if it has one.
pub open spec fn filter_host(rule: BlockRule) -> Option<Seq<char>> {
    match rule.url_filter {
        Some(f) => Some(cleaned_filter(f@)),
        None => None,
    }
}

/// The host patterns after one more rule: its domains in lowercase, then the
/// host of its URL filter unless that is empty or already present.
pub open spec fn add_rule_hosts(hosts: Seq<Seq<char>>, rule: BlockRule) -> Seq<Seq<char>> {
    add_hosts(hosts, lowercase_domains(rule), filter_host(rule))
}

/// The host patterns extracted from a list of rules, in order.
pub open spec fn extracted_hosts(rules: Seq<BlockRule>) -> Seq<Seq<char>>
    decreases rules.len(),
{
    if rules.len() == 0 {
        seq![]
    } else {
        add_rule_hosts(extracted_hosts(rules.drop_last()), rules.last())
    }
}

/// A URL is matched by a list of host patterns when its lowercase form
/// contains one of them.
pub open spec fn matches_hosts(hosts: Seq<Seq<char>>, url: Seq<char>) -> bool {
    contains_some_host(hosts, lowercase(url))
}

/// Some host pattern occurs in `text`.
pub open spec fn contains_some_host(hosts: Seq<Seq<char>>, text: Seq<char>) -> bool {
    exists|i: int| 0 <= i < hosts.len() && has_substring(text, #[trigger] hosts[i])
}

/// The domains of the built-in fallback blocklist.
pub open spec fn default_domains() -> Seq<Seq<char>> {
    seq![
        "doubleclick.net"@,
        "googlesyndication.com"@,
        "googleadservices.com"@,
        "googletagmanager.com"@,
        "adservice.google.com"@,
        "ads.yahoo.com"@,
        "amazon-adsystem.com"@,
        "criteo.com"@,
        "adsrvr.org"@,
        "pubmatic.com"@,
        "taboola.com"@,
        "outbrain.com"@,
        "moatads.com"@,
        "adnxs.com"@,
        "scorecardresearch.com"@,
        "quantserve.com"@,
        "hotjar.com"@,
    ]
}

/// Shared ad-blocker state: the on/off switch, the rule set, and the host
/// patterns extracted from the rules.
pub struct AdBlockState {
    enabled: bool,
    rules: RulesFile,
    blocked_hosts: Vec<String>,
}

impl AdBlockState {
    #[verifier::type_invariant]
    spec fn hosts_come_from_rules(self) -> bool {
        string_views(self.blocked_hosts@) == extracted_hosts(self.rules.rules@)
    }

    /// Whether blocking is switched on.
    pub closed spec fn is_enabled(&self) -> bool {
        self.enabled
    }

    /// The rules the state was built from.
    pub closed spec fn rule_seq(&self) -> Seq<BlockRule> {
        self.rules.rules@
    }

    /// The state built from a rule set, switched on or off as persisted.
    pub fn new(rules: RulesFile, enabled: bool) -> (s: AdBlockState)
        ensures
            s.is_enabled() == enabled,
            s.rule_seq() == rules.rules@,
    {
        let hosts = extract_hosts(&rules);
        AdBlockState { enabled, rules, blocked_hosts: hosts }
    }

    /// Whether blocking is switched on.
    pub fn enabled(&self) -> (b: bool)
        ensures
            b == self.is_enabled(),
    {
        self.enabled
    }

    /// The number of host patterns extracted from the rules.
    pub fn host_count(&self) -> (n: usize)
        ensures
            n == extracted_hosts(self.rule_seq()).len(),
    {
        proof {
            use_type_invariant(self);
        }
        self.blocked_hosts.len()
    }

    /// The number of rules.
    pub fn rule_count(&self) -> (n: usize)
        ensures
            n == self.rule_seq().len(),
    {
        self.rules.rules.len()
    }

    /// Switches blocking on or off; the rules stay as they are.
    pub fn set_enabled(&mut self, enabled: bool)
        ensures
            final(self).is_enabled() == enabled,
            final(self).rule_seq() == old(self).rule_seq(),
    {
        proof {
            use_type_invariant(&*self);
        }
        self.enabled = enabled;
    }

    /// Whether `url` should be blocked: blocking is on and the lowercase URL
    /// contains one of the host patterns of the rules.
    pub fn is_blocked(&self, url: &str) -> (r: bool)
        ensures
            r == blocks(self.is_enabled(), self.rule_seq(), url@),
    {
        if !self.enabled() {
            return false;
        }
        let url_lower = to_lowercase(url);
        self.is_blocked_lowercase(url_lower.as_str())
    }

    /// Whether a URL already in lowercase should be blocked: blocking is on
    /// and it contains one of the host patterns of the rules.
    pub fn is_blocked_lowercase(&self, url_lower: &str) -> (r: bool)
        ensures
            r == (self.is_enabled() && contains_some_host(
                extracted_hosts(self.rule_seq()),
                url_lower@,
            )),
    {
        proof {
            use_type_invariant(self);
        }
        if !self.enabled {
            return false;
        }
        let ghost hosts = extracted_hosts(self.rule_seq());
        let n = self.blocked_hosts.len();
        for i in 0..n
            invariant
                n == self.blocked_hosts@.len(),
                hosts == string_views(self.blocked_hosts@),
                hosts == extracted_hosts(self.rule_seq()),
                self.is_enabled(),
                forall|j: int| 0 <= j < i ==> !has_substring(url_lower@, #[trigger] hosts[j]),
        {
            if str_contains(url_lower, self.blocked_hosts[i].as_str()) {
                assert(has_substring(url_lower@, hosts[i as int]));
                return true;
            }
        }
        false
    }
}

/// Replaces an unreadable or unparsable rule file by the built-in blocklist.
pub fn rules_or_default(parsed: Option<RulesFile>) -> (r: RulesFile)
    ensures
        parsed is Some ==> r == parsed->0,
        parsed is None ==> is_default_rule_set(r.rules@),
{
    match parsed {
        Some(rules) => rules,
        None => default_rules(),
    }
}

/// The rule set of the built-in blocklist: one rule per default domain, whose
/// filter is `||domain^` and whose only domain is the domain itself.
pub open spec fn is_default_rule_set(rules: Seq<BlockRule>) -> bool {
    &&& rules.len() == default_domains().len()
    &&& forall|i: int|
        0 <= i < rules.len() ==> {
            &&& option_view(#[trigger] rules[i].url_filter) == Some(
                "||"@ + default_domains()[i] + "^"@,
            )
            &&& string_views(rules[i].domains@) == seq![default_domains()[i]]
            &&& rules[i].resource_types@.len() == 0
        }
}

/// The minimal built-in blocklist used when the bundled rules are absent.
pub fn default_rules() -> (r: RulesFile)
    ensures
        is_default_rule_set(r.rules@),
{
    let domains: Vec<&str> = vec![
        "doubleclick.net",
        "googlesyndication.com",
        "googleadservices.com",
        "googletagmanager.com",
        "adservice.google.com",
        "ads.yahoo.com",
        "amazon-adsystem.com",
        "criteo.com",
        "adsrvr.org",
        "pubmatic.com",
        "taboola.com",
        "outbrain.com",
        "moatads.com",
        "adnxs.com",
        "scorecardresearch.com",
        "quantserve.com",
        "hotjar.com",
    ];
    assert(domains@.map_values(|d: &str| d@) =~= default_domains());
    let mut rules: Vec<BlockRule> = Vec::new();
    let n = domains.len();
    for i in 0..n
        invariant
            n == domains@.len(),
            domains@.map_values(|d: &str| d@) == default_domains(),
            rules@.len() == i,
            forall|k: int|
                0 <= k < i ==> {
                    &&& option_view(#[trigger] rules@[k].url_filter) == Some(
                        "||"@ + default_domains()[k] + "^"@,
                    )
                    &&& string_views(rules@[k].domains@) == seq![default_domains()[k]]
                    &&& rules@[k].resource_types@.len() == 0
                },
    {
        let d = domains[i];
        assert(d@ == default_domains()[i as int]);
        let filter = String::from_str("||").concat(d).concat("^");
        let mut ds: Vec<String> = Vec::new();
        ds.push(String::from_str(d));
        assert(string_views(ds@) =~= seq![default_domains()[i as int]]);
        rules.push(BlockRule { url_filter: Some(filter), domains: ds, resource_types: Vec::new() });
    }
    RulesFile { rules }
}

/// Whether `h` is among the strings of `hosts`.
pub(crate) fn contains_string(hosts: &Vec<String>, h: &String) -> (r: bool)
    ensures
        r == string_views(hosts@).contains(h@),
{
    let n = hosts.len();
    for i in 0..n
        invariant
            n == hosts@.len(),
            forall|j: int| 0 <= j < i ==> hosts@[j]@ != h@,
    {
        if hosts[i] == *h {
            assert(string_views(hosts@)[i as int] == h@);
            return true;
        }
    }
    assert forall|j: int| 0 <= j < string_views(hosts@).len() implies string_views(hosts@)[j]
        != h@ by {
        assert(hosts@[j]@ != h@);
    }
    false
}

/// A URL filter without its anchors and separators (see
/// `filter_without_anchors`).
pub fn strip_filter_anchors(f: &str) -> (c: String)
    ensures
        c@ == filter_without_anchors(f@),
{
    proof {
        reveal_strlit("||");
        reveal_strlit("*");
    }
    assert("||"@ =~= seq!['|', '|']);
    assert("*"@ =~= seq!['*']);
    let a = trim_start_matches(f, "||");
    let b = trim_start_matches(a.as_str(), "*");
    trim_end_matches(b.as_str(), '^')
}

/// The host pattern of a URL filter (see `cleaned_filter`).
pub fn clean_filter(f: &str) -> (c: String)
    ensures
        c@ == cleaned_filter(f@),
{
    let c = strip_filter_anchors(f);
    to_lowercase(c.as_str())
}

/// Appends the lowercase domains of a rule and, unless it is empty or already
/// present, the host of its URL filter (see `add_hosts`).
pub fn push_rule_hosts(hosts: &mut Vec<String>, domains: Vec<String>, filter_host: Option<String>)
    ensures
        string_views(final(hosts)@) == add_hosts(
            string_views(old(hosts)@),
            string_views(domains@),
            option_view(filter_host),
        ),
{
    let ghost before = string_views(hosts@);
    let m = domains.len();
    for d in it: domains
        invariant
            it.seq() == domains@,
            string_views(hosts@) == before + string_views(it.seq().take(it.index() as int)),
    {
        let ghost prev = hosts@;
        let ghost k = it.index();
        hosts.push(d);
        assert(string_views(hosts@) =~= string_views(prev).push(d@));
        assert(it.seq().take(k + 1) =~= it.seq().take(k as int).push(d));
        assert(string_views(it.seq().take(k + 1)) =~= string_views(it.seq().take(k as int)).push(d@));
    }
    assert(domains@.take(m as int) =~= domains@);
    let ghost with_domains = string_views(hosts@);
    match filter_host {
        Some(c) => {
            if !c.as_str().is_empty() && !contains_string(hosts, &c) {
                let ghost prev = hosts@;
                let ghost cv = c@;
                hosts.push(c);
                assert(string_views(hosts@) =~= string_views(prev).push(cv));
            }
        },
        None => {},
    }
}

/// The host patterns of a rule set, for fast matching (see `extracted_hosts`).
pub fn extract_hosts(rules: &RulesFile) -> (hosts: Vec<String>)
    ensures
        string_views(hosts@) == extracted_hosts(rules.rules@),
{
    let mut hosts: Vec<String> = Vec::new();
    let n = rules.rules.len();
    assert(rules.rules@.take(0) =~= Seq::<BlockRule>::empty());
    for idx in 0..n
        invariant
            n == rules.rules@.len(),
            string_views(hosts@) == extracted_hosts(rules.rules@.take(idx as int)),
    {
        let rule = &rules.rules[idx];
        let mut lowered: Vec<String> = Vec::new();
        let m = rule.domains.len();
        for j in 0..m
            invariant
                m == rule.domains@.len(),
                string_views(lowered@) == rule.domains@.take(j as int).map_values(
                    |d: String| lowercase(d@),
                ),
        {
            let low = to_lowercase(rule.domains[j].as_str());
            let ghost prev = lowered@;
            lowered.push(low);
            assert(string_views(lowered@) =~= string_views(prev).push(low@));
            assert(rule.domains@.take(j + 1).map_values(|d: String| lowercase(d@)) =~= rule.domains@.take(
                j as int,
            ).map_values(|d: String| lowercase(d@)).push(lowercase(rule.domains@[j as int]@)));
        }
        assert(rule.domains@.take(m as int) =~= rule.domains@);
        let host = match &rule.url_filter {
            Some(f) => Some(clean_filter(f.as_str())),
            None => None,
        };
        assert(option_view(host) == filter_host(*rule));
        push_rule_hosts(&mut hosts, lowered, host);
        assert(rules.rules@.take(idx + 1).drop_last() =~= rules.rules@.take(idx as int));
    }
    assert(rules.rules@.take(n as int) =~= rules.rules@);
    hosts
}

/// Every host pattern of a prefix of a rule list stays a host pattern of the
/// whole list.
proof fn lemma_prefix_hosts_kept(rules: Seq<BlockRule>, k: int, x: Seq<char>)
    requires
        0 <= k <= rules.len(),
        extracted_hosts(rules.take(k)).contains(x),
    ensures
        extracted_hosts(rules).contains(x),
    decreases rules.len(),
{
    if k == rules.len() {
        assert(rules.take(k) =~= rules);
    } else {
        let front = rules.drop_last();
        assert(front.take(k) =~= rules.take(k));
        lemma_prefix_hosts_kept(front, k, x);
        let h = extracted_hosts(front);
        let rule = rules.last();
        let with_domains = h + rule.domains@.map_values(|d: String| lowercase(d@));
        let i = choose|i: int| 0 <= i < h.len() && h[i] == x;
        assert(with_domains[i] == x);
        assert(with_domains.contains(x));
        if let Some(f) = rule.url_filter {
            let c = cleaned_filter(f@);
            if c.len() > 0 && !with_domains.contains(c) {
                assert(with_domains.push(c)[i] == x);
            }
        }
    }
}

/// Law: every domain that a rule names, in lowercase, is one of the host
/// patterns.
pub proof fn lemma_domain_is_host(rules: Seq<BlockRule>, i: int, j: int)
    requires
        0 <= i < rules.len(),
        0 <= j < rules[i].domains@.len(),
    ensures
        extracted_hosts(rules).contains(lowercase(rules[i].domains@[j]@)),
{
    let d = lowercase(rules[i].domains@[j]@);
    let prefix = rules.take(i + 1);
    assert(prefix.drop_last() =~= rules.take(i));
    assert(prefix.last() == rules[i]);
    let h = extracted_hosts(rules.take(i));
    let with_domains = h + lowercase_domains(rules[i]);
    assert(with_domains[h.len() + j] == d);
    assert(with_domains.contains(d));
    if let Some(c) = filter_host(rules[i]) {
        if c.len() > 0 && !with_domains.contains(c) {
            assert(with_domains.push(c)[h.len() + j] == d);
        }
    }
    assert(extracted_hosts(prefix).contains(d));
    lemma_prefix_hosts_kept(rules, i + 1, d);
}

/// Law: the host of every URL filter is one of the host patterns unless it is
/// empty.
pub proof fn lemma_filter_is_host(rules: Seq<BlockRule>, i: int)
    requires
        0 <= i < rules.len(),
        rules[i].url_filter is Some,
        cleaned_filter(rules[i].url_filter->0@).len() > 0,
    ensures
        extracted_hosts(rules).contains(cleaned_filter(rules[i].url_filter->0@)),
{
    let c = cleaned_filter(rules[i].url_filter->0@);
    let prefix = rules.take(i + 1);
    assert(prefix.drop_last() =~= rules.take(i));
    assert(prefix.last() == rules[i]);
    let h = extracted_hosts(rules.take(i));
    let with_domains = h + lowercase_domains(rules[i]);
    if !with_domains.contains(c) {
        assert(with_domains.push(c)[with_domains.len() as int] == c);
    }
    assert(extracted_hosts(prefix).contains(c));
    lemma_prefix_hosts_kept(rules, i + 1, c);
}

/// Law: a URL whose lowercase form contains a domain that a rule names, in
/// lowercase, is matched.
pub proof fn lemma_rule_domain_is_matched(rules: Seq<BlockRule>, i: int, j: int, url: Seq<char>)
    requires
        0 <= i < rules.len(),
        0 <= j < rules[i].domains@.len(),
        has_substring(lowercase(url), lowercase(rules[i].domains@[j]@)),
    ensures
        matches_hosts(extracted_hosts(rules), url),
{
    let d = lowercase(rules[i].domains@[j]@);
    lemma_domain_is_host(rules, i, j);
    let all = extracted_hosts(rules);
    let k = choose|k: int| 0 <= k < all.len() && all[k] == d;
    assert(has_substring(lowercase(url), all[k]));
}

/// Law: a URL whose lowercase form contains the non-empty host of a URL
/// filter is matched.
pub proof fn lemma_filter_host_is_matched(rules: Seq<BlockRule>, i: int, url: Seq<char>)
    requires
        0 <= i < rules.len(),
        rules[i].url_filter is Some,
        cleaned_filter(rules[i].url_filter->0@).len() > 0,
        has_substring(lowercase(url), cleaned_filter(rules[i].url_filter->0@)),
    ensures
        matches_hosts(extracted_hosts(rules), url),
{
    let c = cleaned_filter(rules[i].url_filter->0@);
    lemma_filter_is_host(rules, i);
    let all = extracted_hosts(rules);
    let k = choose|k: int| 0 <= k < all.len() && all[k] == c;
    assert(has_substring(lowercase(url), all[k]));
}

/// A host pattern comes from a rule: it is one of the rule's domains in
/// lowercase, or the non-empty host of the rule's URL filter.
pub open spec fn host_from_rule(rule: BlockRule, h: Seq<char>) -> bool {
    ||| exists|j: int| 0 <= j < rule.domains@.len() && h == lowercase(#[trigger] rule.domains@[j]@)
    ||| (rule.url_filter is Some && h == cleaned_filter(rule.url_filter->0@) && h.len() > 0)
}

/// Law: every host pattern comes from one of the rules; in particular no URL
/// filter contributes an empty pattern.
pub proof fn lemma_hosts_come_from_rules(rules: Seq<BlockRule>, k: int)
    requires
        0 <= k < extracted_hosts(rules).len(),
    ensures
        exists|i: int| 0 <= i < rules.len() && host_from_rule(#[trigger] rules[i], extracted_hosts(rules)[k]),
    decreases rules.len(),
{
    let front = rules.drop_last();
    let rule = rules.last();
    let h = extracted_hosts(front);
    let with_domains = h + rule.domains@.map_values(|d: String| lowercase(d@));
    let x = extracted_hosts(rules)[k];
    if k < h.len() {
        if let Some(f) = rule.url_filter {
            let c = cleaned_filter(f@);
            if c.len() > 0 && !with_domains.contains(c) {
                assert(with_domains.push(c)[k] == with_domains[k]);
            }
        }
        assert(x == h[k]);
        lemma_hosts_come_from_rules(front, k);
        let i = choose|i: int| 0 <= i < front.len() && host_from_rule(#[trigger] front[i], h[k]);
        assert(rules[i] == front[i]);
        assert(host_from_rule(rules[i], x));
    } else if k < with_domains.len() {
        if let Some(f) = rule.url_filter {
            let c = cleaned_filter(f@);
            if c.len() > 0 && !with_domains.contains(c) {
                assert(with_domains.push(c)[k] == with_domains[k]);
            }
        }
        let j = k - h.len();
        assert(x == lowercase(rule.domains@[j]@));
        assert(host_from_rule(rules[rules.len() - 1], x));
    } else {
        assert(host_from_rule(rules[rules.len() - 1], x));
    }
}

/// Law: a switched-off blocker blocks nothing, and a switched-on blocker
/// blocks exactly the URLs matched by the host patterns of its rules.
pub proof fn lemma_blocking_follows_switch(rules: Seq<BlockRule>, url: Seq<char>)
    ensures
        !blocks(false, rules, url),
        blocks(true, rules, url) == matches_hosts(extracted_hosts(rules), url),
{
}

/// What `is_blocked` answers for a switch position, a rule list and a URL.
pub open spec fn blocks(enabled: bool, rules: Seq<BlockRule>, url: Seq<char>) -> bool {
    enabled && matches_hosts(extracted_hosts(rules), url)
}

/// Law: some host pattern of a rule list occurs in a text exactly when one of
/// the rules' domains, in lowercase, or the non-empty host of one of their URL
/// filters occurs in it. So a switched-on blocker blocks a URL exactly when
/// such a host of its rules occurs in the lowercase URL: a text that holds
/// none of them, such as one holding only a parent domain of a pattern, is
/// not blocked.
pub proof fn lemma_match_needs_rule_host(rules: Seq<BlockRule>, text: Seq<char>, url: Seq<char>)
    ensures
        contains_some_host(extracted_hosts(rules), text) <==> exists|i: int, h: Seq<char>|
            0 <= i < rules.len() && #[trigger] host_from_rule(rules[i], h) && has_substring(text, h),
        blocks(true, rules, url) <==> exists|i: int, h: Seq<char>|
            0 <= i < rules.len() && #[trigger] host_from_rule(rules[i], h) && has_substring(
                lowercase(url),
                h,
            ),
{
    lemma_match_needs_rule_host_in(rules, text);
    lemma_match_needs_rule_host_in(rules, lowercase(url));
}

proof fn lemma_match_needs_rule_host_in(rules: Seq<BlockRule>, text: Seq<char>)
    ensures
        contains_some_host(extracted_hosts(rules), text) <==> exists|i: int, h: Seq<char>|
            0 <= i < rules.len() && #[trigger] host_from_rule(rules[i], h) && has_substring(text, h),
{
    let all = extracted_hosts(rules);
    if contains_some_host(all, text) {
        let k = choose|k: int| 0 <= k < all.len() && has_substring(text, #[trigger] all[k]);
        lemma_hosts_come_from_rules(rules, k);
        let i = choose|i: int| 0 <= i < rules.len() && host_from_rule(#[trigger] rules[i], all[k]);
        assert(host_from_rule(rules[i], all[k]) && has_substring(text, all[k]));
    }
    if exists|i: int, h: Seq<char>|
        0 <= i < rules.len() && #[trigger] host_from_rule(rules[i], h) && has_substring(text, h) {
        let (i, h) = choose|i: int, h: Seq<char>|
            0 <= i < rules.len() && #[trigger] host_from_rule(rules[i], h) && has_substring(text, h);
        if exists|j: int| 0 <= j < rules[i].domains@.len() && h == lowercase(
            #[trigger] rules[i].domains@[j]@,
        ) {
            let j = choose|j: int| 0 <= j < rules[i].domains@.len() && h == lowercase(
                #[trigger] rules[i].domains@[j]@,
            );
            lemma_domain_is_host(rules, i, j);
        } else {
            lemma_filter_is_host(rules, i);
        }
        let k = choose|k: int| 0 <= k < all.len() && all[k] == h;
        assert(has_substring(text, all[k]));
    }
}

} // verus!
