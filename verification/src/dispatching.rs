//! Dispatching rules: their names, simple and multi-layer configurations,
//! conditions that switch rules dynamically, and presets. Rule weights are in
//! thousandths (1000 = primary, 0 = tie-breaker only).

use vstd::prelude::*;
use crate::job::{Job, JobView};
use crate::strings::{find_last, lookup_last, str_eq};
use crate::validation::job_views;

verus! {

/// Available dispatching rules for job prioritization.
#[derive(Debug, Clone, Copy, PartialEq, Eq, Structural)]
pub enum DispatchingRuleName {
    /// Shortest processing time.
    Spt,
    /// Longest processing time.
    Lpt,
    /// Least work remaining.
    Lwkr,
    /// Most work remaining.
    Mwkr,
    /// Weighted shortest processing time.
    Wspt,
    /// Earliest due date.
    Edd,
    /// Minimum slack time.
    Mst,
    /// Critical ratio.
    Cr,
    /// Slack per remaining operations.
    Sro,
    /// Apparent tardiness cost.
    Atc,
    /// First in, first out.
    Fifo,
    /// Work in next queue.
    Winq,
    /// Least planned utilization level.
    Lpul,
    /// The job's priority field (lower value = more urgent).
    Priority,
    /// Most operations remaining.
    Mopnr,
    /// A pseudo-random order, as a baseline.
    Random,
}

impl Default for DispatchingRuleName {
    fn default() -> (r: DispatchingRuleName)
        ensures
            r == DispatchingRuleName::Fifo,
    {
        DispatchingRuleName::Fifo
    }
}

/// The name of a rule.
pub open spec fn rule_text(r: DispatchingRuleName) -> Seq<char> {
    match r {
        DispatchingRuleName::Spt => "SPT"@,
        DispatchingRuleName::Lpt => "LPT"@,
        DispatchingRuleName::Lwkr => "LWKR"@,
        DispatchingRuleName::Mwkr => "MWKR"@,
        DispatchingRuleName::Wspt => "WSPT"@,
        DispatchingRuleName::Edd => "EDD"@,
        DispatchingRuleName::Mst => "MST"@,
        DispatchingRuleName::Cr => "CR"@,
        DispatchingRuleName::Sro => "S/RO"@,
        DispatchingRuleName::Atc => "ATC"@,
        DispatchingRuleName::Fifo => "FIFO"@,
        DispatchingRuleName::Winq => "WINQ"@,
        DispatchingRuleName::Lpul => "LPUL"@,
        DispatchingRuleName::Priority => "PRIORITY"@,
        DispatchingRuleName::Mopnr => "MOPNR"@,
        DispatchingRuleName::Random => "RANDOM"@,
    }
}

/// The rule an upper-case name denotes ("SRO" also denotes S/RO, "SLACK" the
/// minimum-slack rule MST).
pub open spec fn rule_of_upper(u: Seq<char>) -> Option<DispatchingRuleName> {
    if u == "SPT"@ {
        Some(DispatchingRuleName::Spt)
    } else if u == "LPT"@ {
        Some(DispatchingRuleName::Lpt)
    } else if u == "LWKR"@ {
        Some(DispatchingRuleName::Lwkr)
    } else if u == "MWKR"@ {
        Some(DispatchingRuleName::Mwkr)
    } else if u == "WSPT"@ {
        Some(DispatchingRuleName::Wspt)
    } else if u == "EDD"@ {
        Some(DispatchingRuleName::Edd)
    } else if u == "MST"@ || u == "SLACK"@ {
        Some(DispatchingRuleName::Mst)
    } else if u == "CR"@ {
        Some(DispatchingRuleName::Cr)
    } else if u == "S/RO"@ || u == "SRO"@ {
        Some(DispatchingRuleName::Sro)
    } else if u == "ATC"@ {
        Some(DispatchingRuleName::Atc)
    } else if u == "FIFO"@ {
        Some(DispatchingRuleName::Fifo)
    } else if u == "WINQ"@ {
        Some(DispatchingRuleName::Winq)
    } else if u == "LPUL"@ {
        Some(DispatchingRuleName::Lpul)
    } else if u == "PRIORITY"@ {
        Some(DispatchingRuleName::Priority)
    } else if u == "MOPNR"@ {
        Some(DispatchingRuleName::Mopnr)
    } else if u == "RANDOM"@ {
        Some(DispatchingRuleName::Random)
    } else {
        None
    }
}

/// What `str::to_uppercase` returns for a string: its Unicode upper-case mapping.
pub uninterp spec fn std_uppercase(s: Seq<char>) -> Seq<char>;

/// Upper-cases a string.
///
/// Trusted: calls `str::to_uppercase` of std, whose result depends on the
/// string alone; the contract only names that result.
#[verifier::external_body]
fn to_uppercase(s: &str) -> (u: String)
    ensures
        u@ == std_uppercase(s@),
{
    s.to_uppercase()
}

impl DispatchingRuleName {
    /// The rule's name.
    pub fn as_str(&self) -> (s: &'static str)
        ensures
            s@ == rule_text(*self),
    {
        match self {
            DispatchingRuleName::Spt => "SPT",
            DispatchingRuleName::Lpt => "LPT",
            DispatchingRuleName::Lwkr => "LWKR",
            DispatchingRuleName::Mwkr => "MWKR",
            DispatchingRuleName::Wspt => "WSPT",
            DispatchingRuleName::Edd => "EDD",
            DispatchingRuleName::Mst => "MST",
            DispatchingRuleName::Cr => "CR",
            DispatchingRuleName::Sro => "S/RO",
            DispatchingRuleName::Atc => "ATC",
            DispatchingRuleName::Fifo => "FIFO",
            DispatchingRuleName::Winq => "WINQ",
            DispatchingRuleName::Lpul => "LPUL",
            DispatchingRuleName::Priority => "PRIORITY",
            DispatchingRuleName::Mopnr => "MOPNR",
            DispatchingRuleName::Random => "RANDOM",
        }
    }

    /// The rule an already upper-cased name denotes.
    pub fn parse_upper(u: &str) -> (r: Option<DispatchingRuleName>)
        ensures
            r == rule_of_upper(u@),
    {
        if str_eq(u, "SPT") {
            Some(DispatchingRuleName::Spt)
        } else if str_eq(u, "LPT") {
            Some(DispatchingRuleName::Lpt)
        } else if str_eq(u, "LWKR") {
            Some(DispatchingRuleName::Lwkr)
        } else if str_eq(u, "MWKR") {
            Some(DispatchingRuleName::Mwkr)
        } else if str_eq(u, "WSPT") {
            Some(DispatchingRuleName::Wspt)
        } else if str_eq(u, "EDD") {
            Some(DispatchingRuleName::Edd)
        } else if str_eq(u, "MST") || str_eq(u, "SLACK") {
            Some(DispatchingRuleName::Mst)
        } else if str_eq(u, "CR") {
            Some(DispatchingRuleName::Cr)
        } else if str_eq(u, "S/RO") || str_eq(u, "SRO") {
            Some(DispatchingRuleName::Sro)
        } else if str_eq(u, "ATC") {
            Some(DispatchingRuleName::Atc)
        } else if str_eq(u, "FIFO") {
            Some(DispatchingRuleName::Fifo)
        } else if str_eq(u, "WINQ") {
            Some(DispatchingRuleName::Winq)
        } else if str_eq(u, "LPUL") {
            Some(DispatchingRuleName::Lpul)
        } else if str_eq(u, "PRIORITY") {
            Some(DispatchingRuleName::Priority)
        } else if str_eq(u, "MOPNR") {
            Some(DispatchingRuleName::Mopnr)
        } else if str_eq(u, "RANDOM") {
            Some(DispatchingRuleName::Random)
        } else {
            None
        }
    }

    /// Parses a rule name, ignoring case.
    pub fn parse(s: &str) -> (r: Option<DispatchingRuleName>)
        ensures
            r == rule_of_upper(std_uppercase(s@)),
    {
        let u = to_uppercase(s);
        Self::parse_upper(u.as_str())
    }
}

proof fn lemma_rule_literals()
    ensures
        "CR"@ != "SLACK"@,
        "S/RO"@ != "SLACK"@,
        "SRO"@ != "SLACK"@,
        "ATC"@ != "SLACK"@,
        "FIFO"@ != "SLACK"@,
        "WINQ"@ != "SLACK"@,
        "LPUL"@ != "SLACK"@,
        "PRIORITY"@ != "SLACK"@,
        "SPT"@ != "LPT"@,
        "SPT"@ != "EDD"@,
        "SPT"@ != "MST"@,
        "SPT"@ != "SRO"@,
        "SPT"@ != "ATC"@,
        "LPT"@ != "EDD"@,
        "LPT"@ != "MST"@,
        "LPT"@ != "SRO"@,
        "LPT"@ != "ATC"@,
        "LWKR"@ != "MWKR"@,
        "LWKR"@ != "WSPT"@,
        "LWKR"@ != "S/RO"@,
        "LWKR"@ != "FIFO"@,
        "LWKR"@ != "WINQ"@,
        "LWKR"@ != "LPUL"@,
        "MWKR"@ != "WSPT"@,
        "MWKR"@ != "S/RO"@,
        "MWKR"@ != "FIFO"@,
        "MWKR"@ != "WINQ"@,
        "MWKR"@ != "LPUL"@,
        "WSPT"@ != "S/RO"@,
        "WSPT"@ != "FIFO"@,
        "WSPT"@ != "WINQ"@,
        "WSPT"@ != "LPUL"@,
        "EDD"@ != "MST"@,
        "EDD"@ != "SRO"@,
        "EDD"@ != "ATC"@,
        "MST"@ != "SRO"@,
        "MST"@ != "ATC"@,
        "S/RO"@ != "FIFO"@,
        "S/RO"@ != "WINQ"@,
        "S/RO"@ != "LPUL"@,
        "SRO"@ != "ATC"@,
        "FIFO"@ != "WINQ"@,
        "FIFO"@ != "LPUL"@,
        "WINQ"@ != "LPUL"@,
        "SPT"@ != "LWKR"@,
        "SPT"@ != "MWKR"@,
        "SPT"@ != "WSPT"@,
        "SPT"@ != "CR"@,
        "SPT"@ != "S/RO"@,
        "SPT"@ != "FIFO"@,
        "SPT"@ != "WINQ"@,
        "SPT"@ != "LPUL"@,
        "SPT"@ != "PRIORITY"@,
        "LPT"@ != "LWKR"@,
        "LPT"@ != "MWKR"@,
        "LPT"@ != "WSPT"@,
        "LPT"@ != "CR"@,
        "LPT"@ != "S/RO"@,
        "LPT"@ != "FIFO"@,
        "LPT"@ != "WINQ"@,
        "LPT"@ != "LPUL"@,
        "LPT"@ != "PRIORITY"@,
        "LWKR"@ != "EDD"@,
        "LWKR"@ != "MST"@,
        "LWKR"@ != "CR"@,
        "LWKR"@ != "SRO"@,
        "LWKR"@ != "ATC"@,
        "LWKR"@ != "PRIORITY"@,
        "MWKR"@ != "EDD"@,
        "MWKR"@ != "MST"@,
        "MWKR"@ != "CR"@,
        "MWKR"@ != "SRO"@,
        "MWKR"@ != "ATC"@,
        "MWKR"@ != "PRIORITY"@,
        "WSPT"@ != "EDD"@,
        "WSPT"@ != "MST"@,
        "WSPT"@ != "CR"@,
        "WSPT"@ != "SRO"@,
        "WSPT"@ != "ATC"@,
        "WSPT"@ != "PRIORITY"@,
        "EDD"@ != "CR"@,
        "EDD"@ != "S/RO"@,
        "EDD"@ != "FIFO"@,
        "EDD"@ != "WINQ"@,
        "EDD"@ != "LPUL"@,
        "EDD"@ != "PRIORITY"@,
        "MST"@ != "CR"@,
        "MST"@ != "S/RO"@,
        "MST"@ != "FIFO"@,
        "MST"@ != "WINQ"@,
        "MST"@ != "LPUL"@,
        "MST"@ != "PRIORITY"@,
        "CR"@ != "S/RO"@,
        "CR"@ != "SRO"@,
        "CR"@ != "ATC"@,
        "CR"@ != "FIFO"@,
        "CR"@ != "WINQ"@,
        "CR"@ != "LPUL"@,
        "CR"@ != "PRIORITY"@,
        "S/RO"@ != "SRO"@,
        "S/RO"@ != "ATC"@,
        "S/RO"@ != "PRIORITY"@,
        "SRO"@ != "FIFO"@,
        "SRO"@ != "WINQ"@,
        "SRO"@ != "LPUL"@,
        "SRO"@ != "PRIORITY"@,
        "ATC"@ != "FIFO"@,
        "ATC"@ != "WINQ"@,
        "ATC"@ != "LPUL"@,
        "ATC"@ != "PRIORITY"@,
        "FIFO"@ != "PRIORITY"@,
        "WINQ"@ != "PRIORITY"@,
        "LPUL"@ != "PRIORITY"@,
{
    reveal_strlit("SPT");
    reveal_strlit("LPT");
    reveal_strlit("LWKR");
    reveal_strlit("MWKR");
    reveal_strlit("WSPT");
    reveal_strlit("EDD");
    reveal_strlit("MST");
    reveal_strlit("CR");
    reveal_strlit("S/RO");
    reveal_strlit("SRO");
    reveal_strlit("ATC");
    reveal_strlit("FIFO");
    reveal_strlit("WINQ");
    reveal_strlit("LPUL");
    reveal_strlit("PRIORITY");
    reveal_strlit("SLACK");
    assert("CR"@[0] != "SLACK"@[0]);
    assert("S/RO"@[1] != "SLACK"@[1]);
    assert("SRO"@[1] != "SLACK"@[1]);
    assert("ATC"@[0] != "SLACK"@[0]);
    assert("FIFO"@[0] != "SLACK"@[0]);
    assert("WINQ"@[0] != "SLACK"@[0]);
    assert("LPUL"@[0] != "SLACK"@[0]);
    assert("PRIORITY"@[0] != "SLACK"@[0]);
    assert("SPT"@.len() == 3);
    assert("LPT"@.len() == 3);
    assert("LWKR"@.len() == 4);
    assert("MWKR"@.len() == 4);
    assert("WSPT"@.len() == 4);
    assert("EDD"@.len() == 3);
    assert("MST"@.len() == 3);
    assert("CR"@.len() == 2);
    assert("S/RO"@.len() == 4);
    assert("SRO"@.len() == 3);
    assert("ATC"@.len() == 3);
    assert("FIFO"@.len() == 4);
    assert("WINQ"@.len() == 4);
    assert("LPUL"@.len() == 4);
    assert("PRIORITY"@.len() == 8);
    assert("SPT"@[0] != "LPT"@[0]);
    assert("SPT"@[0] != "EDD"@[0]);
    assert("SPT"@[0] != "MST"@[0]);
    assert("SPT"@[1] != "SRO"@[1]);
    assert("SPT"@[0] != "ATC"@[0]);
    assert("LPT"@[0] != "EDD"@[0]);
    assert("LPT"@[0] != "MST"@[0]);
    assert("LPT"@[0] != "SRO"@[0]);
    assert("LPT"@[0] != "ATC"@[0]);
    assert("LWKR"@[0] != "MWKR"@[0]);
    assert("LWKR"@[0] != "WSPT"@[0]);
    assert("LWKR"@[0] != "S/RO"@[0]);
    assert("LWKR"@[0] != "FIFO"@[0]);
    assert("LWKR"@[0] != "WINQ"@[0]);
    assert("LWKR"@[1] != "LPUL"@[1]);
    assert("MWKR"@[0] != "WSPT"@[0]);
    assert("MWKR"@[0] != "S/RO"@[0]);
    assert("MWKR"@[0] != "FIFO"@[0]);
    assert("MWKR"@[0] != "WINQ"@[0]);
    assert("MWKR"@[0] != "LPUL"@[0]);
    assert("WSPT"@[0] != "S/RO"@[0]);
    assert("WSPT"@[0] != "FIFO"@[0]);
    assert("WSPT"@[1] != "WINQ"@[1]);
    assert("WSPT"@[0] != "LPUL"@[0]);
    assert("EDD"@[0] != "MST"@[0]);
    assert("EDD"@[0] != "SRO"@[0]);
    assert("EDD"@[0] != "ATC"@[0]);
    assert("MST"@[0] != "SRO"@[0]);
    assert("MST"@[0] != "ATC"@[0]);
    assert("S/RO"@[0] != "FIFO"@[0]);
    assert("S/RO"@[0] != "WINQ"@[0]);
    assert("S/RO"@[0] != "LPUL"@[0]);
    assert("SRO"@[0] != "ATC"@[0]);
    assert("FIFO"@[0] != "WINQ"@[0]);
    assert("FIFO"@[0] != "LPUL"@[0]);
    assert("WINQ"@[0] != "LPUL"@[0]);
}

/// The names of the two rules listed last differ from every other name.
proof fn lemma_late_rule_literals()
    ensures
        "MOPNR"@ != "SPT"@,
        "MOPNR"@ != "LPT"@,
        "MOPNR"@ != "LWKR"@,
        "MOPNR"@ != "MWKR"@,
        "MOPNR"@ != "WSPT"@,
        "MOPNR"@ != "EDD"@,
        "MOPNR"@ != "MST"@,
        "MOPNR"@ != "SLACK"@,
        "MOPNR"@ != "CR"@,
        "MOPNR"@ != "S/RO"@,
        "MOPNR"@ != "SRO"@,
        "MOPNR"@ != "ATC"@,
        "MOPNR"@ != "FIFO"@,
        "MOPNR"@ != "WINQ"@,
        "MOPNR"@ != "LPUL"@,
        "MOPNR"@ != "PRIORITY"@,
        "RANDOM"@ != "SPT"@,
        "RANDOM"@ != "LPT"@,
        "RANDOM"@ != "LWKR"@,
        "RANDOM"@ != "MWKR"@,
        "RANDOM"@ != "WSPT"@,
        "RANDOM"@ != "EDD"@,
        "RANDOM"@ != "MST"@,
        "RANDOM"@ != "SLACK"@,
        "RANDOM"@ != "CR"@,
        "RANDOM"@ != "S/RO"@,
        "RANDOM"@ != "SRO"@,
        "RANDOM"@ != "ATC"@,
        "RANDOM"@ != "FIFO"@,
        "RANDOM"@ != "WINQ"@,
        "RANDOM"@ != "LPUL"@,
        "RANDOM"@ != "PRIORITY"@,
        "RANDOM"@ != "MOPNR"@,
{
    reveal_strlit("SPT");
    reveal_strlit("LPT");
    reveal_strlit("LWKR");
    reveal_strlit("MWKR");
    reveal_strlit("WSPT");
    reveal_strlit("EDD");
    reveal_strlit("MST");
    reveal_strlit("SLACK");
    reveal_strlit("CR");
    reveal_strlit("S/RO");
    reveal_strlit("SRO");
    reveal_strlit("ATC");
    reveal_strlit("FIFO");
    reveal_strlit("WINQ");
    reveal_strlit("LPUL");
    reveal_strlit("PRIORITY");
    reveal_strlit("MOPNR");
    reveal_strlit("RANDOM");
    assert("SPT"@.len() == 3);
    assert("LPT"@.len() == 3);
    assert("LWKR"@.len() == 4);
    assert("MWKR"@.len() == 4);
    assert("WSPT"@.len() == 4);
    assert("EDD"@.len() == 3);
    assert("MST"@.len() == 3);
    assert("SLACK"@.len() == 5);
    assert("CR"@.len() == 2);
    assert("S/RO"@.len() == 4);
    assert("SRO"@.len() == 3);
    assert("ATC"@.len() == 3);
    assert("FIFO"@.len() == 4);
    assert("WINQ"@.len() == 4);
    assert("LPUL"@.len() == 4);
    assert("PRIORITY"@.len() == 8);
    assert("MOPNR"@.len() == 5);
    assert("RANDOM"@.len() == 6);
    assert("MOPNR"@[0] != "SLACK"@[0]);
}

/// Every rule's name denotes that rule again.
pub proof fn law_rule_name_round_trip(r: DispatchingRuleName)
    ensures
        rule_of_upper(rule_text(r)) == Some(r),
{
    lemma_rule_literals();
    lemma_late_rule_literals();
    match r {
        DispatchingRuleName::Spt => {}
        DispatchingRuleName::Lpt => {}
        DispatchingRuleName::Lwkr => {}
        DispatchingRuleName::Mwkr => {}
        DispatchingRuleName::Wspt => {}
        DispatchingRuleName::Edd => {}
        DispatchingRuleName::Mst => {}
        DispatchingRuleName::Cr => {}
        DispatchingRuleName::Sro => {}
        DispatchingRuleName::Atc => {}
        DispatchingRuleName::Fifo => {}
        DispatchingRuleName::Winq => {}
        DispatchingRuleName::Lpul => {}
        DispatchingRuleName::Priority => {}
        DispatchingRuleName::Mopnr => {}
        DispatchingRuleName::Random => {}
    }
}

/// A rule with its weight in thousandths.
#[derive(Debug, Clone, Copy, PartialEq, Eq, Structural)]
pub struct WeightedRule {
    pub rule: DispatchingRuleName,
    /// Weight in thousandths: 1000 for a primary rule, 0 for a tie-breaker.
    pub weight_milli: u32,
}

/// A primary rule with an optional tie-breaker.
#[derive(Debug, Clone, Copy, PartialEq, Eq, Structural)]
pub struct DispatchingConfig {
    pub primary_rule: DispatchingRuleName,
    pub tie_breaker: Option<DispatchingRuleName>,
}

impl Default for DispatchingConfig {
    fn default() -> (c: DispatchingConfig)
        ensures
            c.primary_rule == DispatchingRuleName::Fifo,
            c.tie_breaker == None::<DispatchingRuleName>,
    {
        DispatchingConfig { primary_rule: DispatchingRuleName::Fifo, tie_breaker: None }
    }
}

impl DispatchingConfig {
    /// A configuration with one rule and no tie-breaker.
    pub fn new(rule: DispatchingRuleName) -> (c: DispatchingConfig)
        ensures
            c.primary_rule == rule,
            c.tie_breaker == None::<DispatchingRuleName>,
    {
        DispatchingConfig { primary_rule: rule, tie_breaker: None }
    }

    /// The same configuration with a tie-breaker.
    pub fn with_tie_breaker(self, rule: DispatchingRuleName) -> (c: DispatchingConfig)
        ensures
            c.primary_rule == self.primary_rule,
            c.tie_breaker == Some(rule),
    {
        DispatchingConfig { primary_rule: self.primary_rule, tie_breaker: Some(rule) }
    }

    /// The rules a rule engine applies, in order: the primary rule with full
    /// weight, then the tie-breaker, if any, with weight 0.
    pub fn weighted_rules(&self) -> (v: Vec<WeightedRule>)
        ensures
            v@ == match self.tie_breaker {
                Some(t) => seq![WeightedRule { rule: self.primary_rule, weight_milli: 1000 },
                    WeightedRule { rule: t, weight_milli: 0 }],
                None => seq![WeightedRule { rule: self.primary_rule, weight_milli: 1000 }],
            },
    {
        let mut v: Vec<WeightedRule> = Vec::new();
        v.push(WeightedRule { rule: self.primary_rule, weight_milli: 1000 });
        match self.tie_breaker {
            Some(t) => {
                v.push(WeightedRule { rule: t, weight_milli: 0 });
            }
            None => {}
        }
        assert(v@ =~= match self.tie_breaker {
            Some(t) => seq![WeightedRule { rule: self.primary_rule, weight_milli: 1000 },
                WeightedRule { rule: t, weight_milli: 0 }],
            None => seq![WeightedRule { rule: self.primary_rule, weight_milli: 1000 }],
        });
        v
    }
}

/// A named layer of a multi-layer configuration.
#[derive(Debug, Clone)]
pub struct DispatchingLayer {
    pub name: String,
    pub rule: DispatchingRuleName,
    /// Weight in thousandths, between 0 (tie-breaker only) and 1000 (primary).
    pub weight_milli: u32,
}

impl DispatchingLayer {
    /// A layer with full weight.
    pub fn new(name: &str, rule: DispatchingRuleName) -> (l: DispatchingLayer)
        ensures
            l.name@ == name@,
            l.rule == rule,
            l.weight_milli == 1000,
    {
        DispatchingLayer { name: String::from_str(name), rule, weight_milli: 1000 }
    }

    /// The same layer with a weight clamped to `[0, 1000]` thousandths.
    pub fn with_weight(self, weight_milli: i64) -> (l: DispatchingLayer)
        ensures
            l.name == self.name,
            l.rule == self.rule,
            l.weight_milli == if weight_milli < 0 { 0 } else if weight_milli > 1000 { 1000 } else { weight_milli },
    {
        let w: u32 = if weight_milli < 0 { 0 } else if weight_milli > 1000 { 1000 } else { weight_milli as u32 };
        DispatchingLayer { name: self.name, rule: self.rule, weight_milli: w }
    }

    /// The same layer used only to break ties (weight 0).
    pub fn as_tie_breaker(self) -> (l: DispatchingLayer)
        ensures
            l.name == self.name,
            l.rule == self.rule,
            l.weight_milli == 0,
    {
        DispatchingLayer { name: self.name, rule: self.rule, weight_milli: 0 }
    }
}

/// A condition under which the dispatching rule changes. Utilizations are in
/// thousandths (1000 = fully used).
#[derive(Debug, Clone)]
pub enum RuleSwitchCondition {
    /// From a point in time on.
    TimeAfter { threshold_ms: i64 },
    /// Before a point in time.
    TimeBefore { threshold_ms: i64 },
    /// When at least `count` jobs are late.
    DelayedJobsExceed { count: usize },
    /// When a resource is at least this busy.
    UtilizationAbove { resource_id: String, threshold_milli: i64 },
    /// When a resource is less busy than this.
    UtilizationBelow { resource_id: String, threshold_milli: i64 },
    /// When at least `threshold` jobs wait.
    QueueLengthAbove { threshold: usize },
    /// When some job's priority is at most the threshold.
    HasUrgentJobs { priority_threshold: i32 },
    /// Always.
    Always,
}

/// The state the switch conditions look at.
#[derive(Debug, Clone)]
pub struct DispatchingContext {
    pub current_time_ms: i64,
    pub delayed_job_count: usize,
    /// Utilization by resource, in thousandths; a later entry for the same
    /// resource replaces an earlier one.
    pub resource_utilization: Vec<(String, i64)>,
    pub queue_length: usize,
    /// The smallest (most urgent) priority among the jobs.
    pub min_priority: Option<i32>,
}

/// Whether a condition holds in a context.
pub open spec fn condition_holds(c: RuleSwitchCondition, ctx: DispatchingContext) -> bool {
    match c {
        RuleSwitchCondition::TimeAfter { threshold_ms } => ctx.current_time_ms >= threshold_ms,
        RuleSwitchCondition::TimeBefore { threshold_ms } => ctx.current_time_ms < threshold_ms,
        RuleSwitchCondition::DelayedJobsExceed { count } => ctx.delayed_job_count >= count,
        RuleSwitchCondition::UtilizationAbove { resource_id, threshold_milli } =>
            match lookup_last(ctx.resource_utilization@, resource_id@) {
                Some(u) => u >= threshold_milli,
                None => false,
            },
        RuleSwitchCondition::UtilizationBelow { resource_id, threshold_milli } =>
            match lookup_last(ctx.resource_utilization@, resource_id@) {
                Some(u) => u < threshold_milli,
                None => false,
            },
        RuleSwitchCondition::QueueLengthAbove { threshold } => ctx.queue_length >= threshold,
        RuleSwitchCondition::HasUrgentJobs { priority_threshold } => match ctx.min_priority {
            Some(p) => p <= priority_threshold,
            None => false,
        },
        RuleSwitchCondition::Always => true,
    }
}

impl RuleSwitchCondition {
    /// Whether the condition holds in the context.
    pub fn evaluate(&self, context: &DispatchingContext) -> (b: bool)
        ensures
            b == condition_holds(*self, *context),
    {
        match self {
            RuleSwitchCondition::TimeAfter { threshold_ms } => context.current_time_ms >= *threshold_ms,
            RuleSwitchCondition::TimeBefore { threshold_ms } => context.current_time_ms < *threshold_ms,
            RuleSwitchCondition::DelayedJobsExceed { count } => context.delayed_job_count >= *count,
            RuleSwitchCondition::UtilizationAbove { resource_id, threshold_milli } =>
                match find_last(&context.resource_utilization, resource_id.as_str()) {
                    Some(u) => u >= *threshold_milli,
                    None => false,
                },
            RuleSwitchCondition::UtilizationBelow { resource_id, threshold_milli } =>
                match find_last(&context.resource_utilization, resource_id.as_str()) {
                    Some(u) => u < *threshold_milli,
                    None => false,
                },
            RuleSwitchCondition::QueueLengthAbove { threshold } => context.queue_length >= *threshold,
            RuleSwitchCondition::HasUrgentJobs { priority_threshold } => match context.min_priority {
                Some(p) => p <= *priority_threshold,
                None => false,
            },
            RuleSwitchCondition::Always => true,
        }
    }
}

/// A rule that takes over when its condition holds; higher priorities are
/// considered first.
#[derive(Debug, Clone)]
pub struct RuleSwitchRule {
    pub condition: RuleSwitchCondition,
    pub target_rule: DispatchingRuleName,
    pub priority: i32,
}

impl RuleSwitchRule {
    /// A switch rule with priority 0.
    pub fn new(condition: RuleSwitchCondition, rule: DispatchingRuleName) -> (r: RuleSwitchRule)
        ensures
            r.condition == condition,
            r.target_rule == rule,
            r.priority == 0,
    {
        RuleSwitchRule { condition, target_rule: rule, priority: 0 }
    }

    /// The same switch rule with another priority.
    pub fn with_priority(self, priority: i32) -> (r: RuleSwitchRule)
        ensures
            r.condition == self.condition,
            r.target_rule == self.target_rule,
            r.priority == priority,
    {
        RuleSwitchRule { condition: self.condition, target_rule: self.target_rule, priority }
    }
}

/// Whether a timestamp (ms) lies within the range of dates chrono represents:
/// from the first millisecond of year -262143 to the last of year 262142.
pub open spec fn chrono_millis_representable(ms: int) -> bool {
    -8_334_601_228_800_000 <= ms <= 8_210_266_876_799_999
}

/// Whether chrono can represent a timestamp.
///
/// Trusted: calls `chrono::DateTime::<Utc>::from_timestamp_millis`, which returns
/// `None` exactly for timestamps outside the years chrono's dates cover
/// (-262143 to 262142).
#[verifier::external_body]
fn millis_representable(ms: i64) -> (b: bool)
    ensures
        b == chrono_millis_representable(ms as int),
{
    chrono::DateTime::from_timestamp_millis(ms).is_some()
}

/// Whether a job is late at `now`: it has a due date before `now`, and `now`
/// is a representable date.
pub open spec fn job_late(j: JobView, now: int, representable: bool) -> bool {
    representable && match j.due_date {
        Some(d) => d < now,
        None => false,
    }
}

/// The number of jobs late at `now` (none when `now` is not a representable date).
pub open spec fn late_count(jobs: Seq<JobView>, now: int, representable: bool) -> nat
    decreases jobs.len(),
{
    if jobs.len() == 0 {
        0
    } else {
        late_count(jobs.drop_last(), now, representable) + if job_late(jobs.last(), now, representable) { 1nat } else { 0nat }
    }
}

/// The smallest priority among the jobs, if there are any.
pub open spec fn min_priority_of(jobs: Seq<JobView>) -> Option<int>
    decreases jobs.len(),
{
    if jobs.len() == 0 {
        None
    } else {
        match min_priority_of(jobs.drop_last()) {
            Some(p) => Some(if jobs.last().priority < p { jobs.last().priority } else { p }),
            None => Some(jobs.last().priority),
        }
    }
}

impl Default for DispatchingContext {
    fn default() -> (c: DispatchingContext)
        ensures
            c.current_time_ms == 0,
            c.delayed_job_count == 0,
            c.resource_utilization@.len() == 0,
            c.queue_length == 0,
            c.min_priority == None::<i32>,
    {
        DispatchingContext::new(0)
    }
}

impl DispatchingContext {
    /// An empty context at a point in time.
    pub fn new(current_time_ms: i64) -> (c: DispatchingContext)
        ensures
            c.current_time_ms == current_time_ms,
            c.delayed_job_count == 0,
            c.resource_utilization@.len() == 0,
            c.queue_length == 0,
            c.min_priority == None::<i32>,
    {
        DispatchingContext {
            current_time_ms,
            delayed_job_count: 0,
            resource_utilization: Vec::new(),
            queue_length: 0,
            min_priority: None,
        }
    }

    /// The context of a list of waiting jobs: how many there are, how many are
    /// late, and the most urgent priority.
    pub fn from_jobs(jobs: &[Job], current_time_ms: i64) -> (c: DispatchingContext)
        ensures
            c.current_time_ms == current_time_ms,
            c.queue_length == jobs.len(),
            c.delayed_job_count == late_count(job_views(jobs@), current_time_ms as int,
                chrono_millis_representable(current_time_ms as int)),
            c.min_priority matches Some(p) ==> min_priority_of(job_views(jobs@)) == Some(p as int),
            c.min_priority is None ==> min_priority_of(job_views(jobs@)) is None,
            c.resource_utilization@.len() == 0,
    {
        let representable = millis_representable(current_time_ms);
        Self::from_jobs_checked(jobs, current_time_ms, representable)
    }

    /// The context of a queue of jobs at `current_time_ms`, given whether that
    /// time is a representable date (no job counts as late when it is not).
    pub fn from_jobs_checked(jobs: &[Job], current_time_ms: i64, time_representable: bool) -> (c: DispatchingContext)
        ensures
            c.current_time_ms == current_time_ms,
            c.queue_length == jobs.len(),
            c.delayed_job_count == late_count(job_views(jobs@), current_time_ms as int, time_representable),
            c.min_priority matches Some(p) ==> min_priority_of(job_views(jobs@)) == Some(p as int),
            c.min_priority is None ==> min_priority_of(job_views(jobs@)) is None,
            c.resource_utilization@.len() == 0,
    {
        let ghost js = job_views(jobs@);
        let mut ctx = DispatchingContext::new(current_time_ms);
        ctx.queue_length = jobs.len();
        let representable = time_representable;
        let mut delayed: usize = 0;
        let mut min_p: Option<i32> = None;
        let mut i: usize = 0;
        assert(js.take(0) =~= Seq::<JobView>::empty());
        while i < jobs.len()
            invariant
                i <= jobs.len(),
                js == job_views(jobs@),
                js.len() == jobs.len(),
                representable == time_representable,
                delayed == late_count(js.take(i as int), current_time_ms as int, time_representable),
                delayed <= i,
                min_p matches Some(p) ==> min_priority_of(js.take(i as int)) == Some(p as int),
                min_p is None ==> min_priority_of(js.take(i as int)) is None,
            decreases jobs.len() - i,
        {
            assert(js.take(i + 1).drop_last() =~= js.take(i as int));
            assert(js[i as int] == jobs@[i as int]@);
            let late = match jobs[i].due_date {
                Some(d) => representable && d < current_time_ms,
                None => false,
            };
            if late {
                delayed = delayed + 1;
            }
            let p = jobs[i].priority;
            min_p = match min_p {
                Some(m) => Some(if p < m { p } else { m }),
                None => Some(p),
            };
            i += 1;
        }
        assert(js.take(jobs.len() as int) =~= js);
        ctx.delayed_job_count = delayed;
        ctx.min_priority = min_p;
        ctx
    }

    /// The same context with a resource's utilization (in thousandths) recorded.
    pub fn with_utilization(self, resource_id: &str, utilization_milli: i64) -> (c: DispatchingContext)
        ensures
            c.current_time_ms == self.current_time_ms,
            c.delayed_job_count == self.delayed_job_count,
            c.resource_utilization@ == self.resource_utilization@.push((c.resource_utilization@.last().0, utilization_milli)),
            c.resource_utilization@.last().0@ == resource_id@,
            c.queue_length == self.queue_length,
            c.min_priority == self.min_priority,
    {
        let mut c = self;
        c.resource_utilization.push((String::from_str(resource_id), utilization_milli));
        c
    }
}

/// Whether switch rule `i` is the one chosen: its condition holds, and every
/// other rule whose condition holds has a lower priority or the same priority
/// and comes later.
pub open spec fn chosen_switch(rules: Seq<RuleSwitchRule>, ctx: DispatchingContext, i: int) -> bool {
    &&& 0 <= i < rules.len()
    &&& condition_holds(rules[i].condition, ctx)
    &&& forall|j: int| 0 <= j < rules.len() && #[trigger] condition_holds(rules[j].condition, ctx)
            ==> rules[j].priority < rules[i].priority || (rules[j].priority == rules[i].priority && i <= j)
}

/// Layers, switch rules and a default rule.
#[derive(Debug, Clone)]
pub struct MultiLayerDispatchingConfig {
    pub layers: Vec<DispatchingLayer>,
    pub switch_rules: Vec<RuleSwitchRule>,
    pub default_rule: DispatchingRuleName,
}

impl MultiLayerDispatchingConfig {
    /// A configuration with no layers and no switch rules.
    pub fn new(default_rule: DispatchingRuleName) -> (c: MultiLayerDispatchingConfig)
        ensures
            c.layers@.len() == 0,
            c.switch_rules@.len() == 0,
            c.default_rule == default_rule,
    {
        MultiLayerDispatchingConfig { layers: Vec::new(), switch_rules: Vec::new(), default_rule }
    }

    /// The same configuration with one more layer.
    pub fn with_layer(self, layer: DispatchingLayer) -> (c: MultiLayerDispatchingConfig)
        ensures
            c.layers@ == self.layers@.push(layer),
            c.switch_rules@ == self.switch_rules@,
            c.default_rule == self.default_rule,
    {
        let mut c = self;
        c.layers.push(layer);
        c
    }

    /// The same configuration with one more switch rule.
    pub fn with_switch_rule(self, rule: RuleSwitchRule) -> (c: MultiLayerDispatchingConfig)
        ensures
            c.layers@ == self.layers@,
            c.switch_rules@ == self.switch_rules@.push(rule),
            c.default_rule == self.default_rule,
    {
        let mut c = self;
        c.switch_rules.push(rule);
        c
    }

    /// The rule to apply in a context: that of the switch rule with the highest
    /// priority (the first listed among equals) whose condition holds, else the
    /// default rule.
    pub fn select_rule(&self, context: &DispatchingContext) -> (r: DispatchingRuleName)
        ensures
            (exists|i: int| chosen_switch(self.switch_rules@, *context, i) && r == self.switch_rules@[i].target_rule)
            || ((forall|j: int| 0 <= j < self.switch_rules@.len() ==> !#[trigger] condition_holds(self.switch_rules@[j].condition, *context))
                && r == self.default_rule),
    {
        let ghost rules = self.switch_rules@;
        let mut best: Option<usize> = None;
        let mut i: usize = 0;
        while i < self.switch_rules.len()
            invariant
                i <= self.switch_rules.len(),
                rules == self.switch_rules@,
                match best {
                    Some(b) => b < i && condition_holds(rules[b as int].condition, *context)
                        && forall|j: int| 0 <= j < i && #[trigger] condition_holds(rules[j].condition, *context)
                            ==> rules[j].priority < rules[b as int].priority
                                || (rules[j].priority == rules[b as int].priority && b <= j),
                    None => forall|j: int| 0 <= j < i ==> !#[trigger] condition_holds(rules[j].condition, *context),
                },
            decreases self.switch_rules.len() - i,
        {
            if self.switch_rules[i].condition.evaluate(context) {
                let better = match best {
                    Some(b) => self.switch_rules[i].priority > self.switch_rules[b].priority,
                    None => true,
                };
                if better {
                    best = Some(i);
                }
            }
            i += 1;
        }
        match best {
            Some(b) => {
                assert(chosen_switch(rules, *context, b as int));
                self.switch_rules[b].target_rule
            }
            None => self.default_rule,
        }
    }

    /// The rules a rule engine applies in a context: the layers' rules with their
    /// weights when there are layers, otherwise the selected rule with full weight.
    pub fn weighted_rules(&self, context: &DispatchingContext) -> (v: Vec<WeightedRule>)
        ensures
            self.layers@.len() > 0 ==> v@ == self.layers@.map_values(
                |l: DispatchingLayer| WeightedRule { rule: l.rule, weight_milli: l.weight_milli }),
            self.layers@.len() == 0 ==> v@.len() == 1 && v@[0].weight_milli == 1000
                && ((exists|i: int| chosen_switch(self.switch_rules@, *context, i) && v@[0].rule == self.switch_rules@[i].target_rule)
                || ((forall|j: int| 0 <= j < self.switch_rules@.len() ==> !#[trigger] condition_holds(self.switch_rules@[j].condition, *context))
                    && v@[0].rule == self.default_rule)),
    {
        let mut v: Vec<WeightedRule> = Vec::new();
        if self.layers.len() == 0 {
            let r = self.select_rule(context);
            v.push(WeightedRule { rule: r, weight_milli: 1000 });
        } else {
            let mut i: usize = 0;
            while i < self.layers.len()
                invariant
                    i <= self.layers.len(),
                    v@ == self.layers@.take(i as int).map_values(
                        |l: DispatchingLayer| WeightedRule { rule: l.rule, weight_milli: l.weight_milli }),
                decreases self.layers.len() - i,
            {
                v.push(WeightedRule { rule: self.layers[i].rule, weight_milli: self.layers[i].weight_milli });
                assert(v@ =~= self.layers@.take(i + 1).map_values(
                    |l: DispatchingLayer| WeightedRule { rule: l.rule, weight_milli: l.weight_milli }));
                i += 1;
            }
            assert(self.layers@.take(self.layers.len() as int) =~= self.layers@);
        }
        v
    }

    /// The simple configuration closest to this one: the first layer's rule (or
    /// the default rule) as primary, and the second layer's rule as tie-breaker
    /// when that layer has weight 0.
    pub fn to_simple_config(&self) -> (c: DispatchingConfig)
        ensures
            c.primary_rule == if self.layers@.len() > 0 { self.layers@[0].rule } else { self.default_rule },
            c.tie_breaker == if self.layers@.len() > 1 && self.layers@[1].weight_milli == 0 {
                Some(self.layers@[1].rule)
            } else {
                None
            },
    {
        let primary = if self.layers.len() > 0 { self.layers[0].rule } else { self.default_rule };
        let tie_breaker = if self.layers.len() > 1 && self.layers[1].weight_milli == 0 {
            Some(self.layers[1].rule)
        } else {
            None
        };
        DispatchingConfig { primary_rule: primary, tie_breaker }
    }
}

/// Preset dispatching strategies.
#[derive(Debug, Clone, Copy, PartialEq, Eq, Structural)]
pub enum DispatchingPreset {
    /// EDD with an SPT tie-breaker.
    DueDateFocused,
    /// SPT.
    ThroughputMaximize,
    /// Critical ratio with a FIFO tie-breaker.
    Balanced,
    /// Priority, then EDD at half weight.
    UrgencyResponse,
    /// LPUL, then WINQ at half weight.
    LoadBalancing,
    /// FIFO.
    FairQueue,
}

/// The layers of a preset as (rule, weight in thousandths).
pub open spec fn preset_layers(p: DispatchingPreset) -> Seq<(DispatchingRuleName, int)> {
    match p {
        DispatchingPreset::DueDateFocused => seq![(DispatchingRuleName::Edd, 1000), (DispatchingRuleName::Spt, 0)],
        DispatchingPreset::ThroughputMaximize => seq![(DispatchingRuleName::Spt, 1000)],
        DispatchingPreset::Balanced => seq![(DispatchingRuleName::Cr, 1000), (DispatchingRuleName::Fifo, 0)],
        DispatchingPreset::UrgencyResponse => seq![(DispatchingRuleName::Priority, 1000), (DispatchingRuleName::Edd, 500)],
        DispatchingPreset::LoadBalancing => seq![(DispatchingRuleName::Lpul, 1000), (DispatchingRuleName::Winq, 500)],
        DispatchingPreset::FairQueue => seq![(DispatchingRuleName::Fifo, 1000)],
    }
}

/// The names of a preset's layers, in order.
pub open spec fn preset_layer_names(p: DispatchingPreset) -> Seq<Seq<char>> {
    match p {
        DispatchingPreset::DueDateFocused => seq!["due_date"@, "tie_breaker"@],
        DispatchingPreset::ThroughputMaximize => seq!["shortest_first"@],
        DispatchingPreset::Balanced => seq!["critical_ratio"@, "tie_breaker"@],
        DispatchingPreset::UrgencyResponse => seq!["priority"@, "due_date"@],
        DispatchingPreset::LoadBalancing => seq!["utilization"@, "queue"@],
        DispatchingPreset::FairQueue => seq!["fifo"@],
    }
}

/// Whether a configuration's layers carry these names, in order.
pub open spec fn layers_named(c: MultiLayerDispatchingConfig, names: Seq<Seq<char>>) -> bool {
    &&& c.layers@.len() == names.len()
    &&& forall|i: int| 0 <= i < names.len() ==> #[trigger] c.layers@[i].name@ == names[i]
}

/// The default rule of a preset.
pub open spec fn preset_default(p: DispatchingPreset) -> DispatchingRuleName {
    match p {
        DispatchingPreset::DueDateFocused => DispatchingRuleName::Edd,
        DispatchingPreset::ThroughputMaximize => DispatchingRuleName::Spt,
        DispatchingPreset::Balanced => DispatchingRuleName::Cr,
        DispatchingPreset::UrgencyResponse => DispatchingRuleName::Priority,
        DispatchingPreset::LoadBalancing => DispatchingRuleName::Lpul,
        DispatchingPreset::FairQueue => DispatchingRuleName::Fifo,
    }
}

/// Whether a configuration's layers are the given (rule, weight) pairs.
pub open spec fn layers_are(c: MultiLayerDispatchingConfig, l: Seq<(DispatchingRuleName, int)>) -> bool {
    &&& c.layers@.len() == l.len()
    &&& forall|i: int| 0 <= i < l.len() ==> #[trigger] c.layers@[i].rule == l[i].0 && c.layers@[i].weight_milli == l[i].1
}

impl DispatchingPreset {
    /// The configuration of the preset, without switch rules.
    pub fn to_config(&self) -> (c: MultiLayerDispatchingConfig)
        ensures
            c.default_rule == preset_default(*self),
            layers_are(c, preset_layers(*self)),
            layers_named(c, preset_layer_names(*self)),
            c.switch_rules@.len() == 0,
    {
        match self {
            DispatchingPreset::DueDateFocused => MultiLayerDispatchingConfig::new(DispatchingRuleName::Edd)
                .with_layer(DispatchingLayer::new("due_date", DispatchingRuleName::Edd))
                .with_layer(DispatchingLayer::new("tie_breaker", DispatchingRuleName::Spt).as_tie_breaker()),
            DispatchingPreset::ThroughputMaximize => MultiLayerDispatchingConfig::new(DispatchingRuleName::Spt)
                .with_layer(DispatchingLayer::new("shortest_first", DispatchingRuleName::Spt)),
            DispatchingPreset::Balanced => MultiLayerDispatchingConfig::new(DispatchingRuleName::Cr)
                .with_layer(DispatchingLayer::new("critical_ratio", DispatchingRuleName::Cr))
                .with_layer(DispatchingLayer::new("tie_breaker", DispatchingRuleName::Fifo).as_tie_breaker()),
            DispatchingPreset::UrgencyResponse => MultiLayerDispatchingConfig::new(DispatchingRuleName::Priority)
                .with_layer(DispatchingLayer::new("priority", DispatchingRuleName::Priority))
                .with_layer(DispatchingLayer::new("due_date", DispatchingRuleName::Edd).with_weight(500)),
            DispatchingPreset::LoadBalancing => MultiLayerDispatchingConfig::new(DispatchingRuleName::Lpul)
                .with_layer(DispatchingLayer::new("utilization", DispatchingRuleName::Lpul))
                .with_layer(DispatchingLayer::new("queue", DispatchingRuleName::Winq).with_weight(500)),
            DispatchingPreset::FairQueue => MultiLayerDispatchingConfig::new(DispatchingRuleName::Fifo)
                .with_layer(DispatchingLayer::new("fifo", DispatchingRuleName::Fifo)),
        }
    }

    /// The configuration of the preset with two switch rules: to Priority when a
    /// job has priority 1 or less (considered first), to EDD when at least five
    /// jobs are late.
    pub fn to_adaptive_config(&self) -> (c: MultiLayerDispatchingConfig)
        ensures
            c.default_rule == preset_default(*self),
            layers_are(c, preset_layers(*self)),
            layers_named(c, preset_layer_names(*self)),
            c.switch_rules@.len() == 2,
            c.switch_rules@[0].condition == (RuleSwitchCondition::HasUrgentJobs { priority_threshold: 1 }),
            c.switch_rules@[0].target_rule == DispatchingRuleName::Priority,
            c.switch_rules@[0].priority == 100,
            c.switch_rules@[1].condition == (RuleSwitchCondition::DelayedJobsExceed { count: 5 }),
            c.switch_rules@[1].target_rule == DispatchingRuleName::Edd,
            c.switch_rules@[1].priority == 50,
    {
        let config = self.to_config();
        let config = config.with_switch_rule(
            RuleSwitchRule::new(RuleSwitchCondition::HasUrgentJobs { priority_threshold: 1 }, DispatchingRuleName::Priority)
                .with_priority(100),
        );
        config.with_switch_rule(
            RuleSwitchRule::new(RuleSwitchCondition::DelayedJobsExceed { count: 5 }, DispatchingRuleName::Edd)
                .with_priority(50),
        )
    }
}

/// At most one switch rule is chosen in a context, so the selected rule is
/// determined by the rules and the context.
pub proof fn law_chosen_switch_unique(rules: Seq<RuleSwitchRule>, ctx: DispatchingContext, i: int, j: int)
    requires
        chosen_switch(rules, ctx, i),
        chosen_switch(rules, ctx, j),
    ensures
        i == j,
{
    assert(condition_holds(rules[j].condition, ctx));
    assert(condition_holds(rules[i].condition, ctx));
}

} // verus!
