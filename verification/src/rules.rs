//! Architecture boundary rules and explicit entry points.
use vstd::prelude::*;
use crate::report::{AnalysisReport, DependencyEdge};
use crate::text::{chars_of, has_char, has_prefix, some_part_is, split, split_on, starts_with, chars_equal, concat};

verus! {

/// Modules under the `from` prefix may not import modules under the `disallow` prefix.
#[derive(Debug)]
pub struct BoundaryRule {
    pub from: String,
    pub disallow: String,
    pub message: Option<String>,
}

/// The contents of a project's rules file.
#[derive(Debug)]
pub struct RulesConfig {
    pub boundaries: Vec<BoundaryRule>,
    pub entry_points: Vec<String>,
}

impl Default for RulesConfig {
    fn default() -> (r: Self)
        ensures
            r.boundaries@.len() == 0,
            r.entry_points@.len() == 0,
    {
        RulesConfig { boundaries: Vec::new(), entry_points: Vec::new() }
    }
}

/// A dependency that crosses a configured boundary.
#[derive(Debug)]
pub struct Violation {
    pub from: String,
    pub to: String,
    pub message: String,
}

/// Why a rules file is refused.
#[derive(Debug)]
pub enum RulesError {
    /// An entry point that is not a project-relative path with forward slashes.
    InvalidEntryPoint(String),
    /// A boundary rule with an empty `from` or `disallow` prefix.
    EmptyBoundaryPrefix,
}

/// The two characters `..`.
pub open spec fn parent_part() -> Seq<char> {
    seq!['.', '.']
}

/// A project-relative entry path: not empty, not absolute, no backslash, no `..` part.
pub open spec fn valid_entry(e: Seq<char>) -> bool {
    &&& e.len() > 0
    &&& e[0] != '/'
    &&& !e.contains('\\')
    &&& !some_part_is(split_on(e, '/'), parent_part())
}

/// A boundary rule with both prefixes given.
pub open spec fn valid_boundary(b: BoundaryRule) -> bool {
    b.from@.len() > 0 && b.disallow@.len() > 0
}

pub fn is_valid_entry(e: &str) -> (r: bool)
    ensures
        r == valid_entry(e@),
{
    let c = chars_of(e);
    if c.len() == 0 || c[0] == '/' || has_char(&c, '\\') {
        return false;
    }
    let parts = split(&c, '/');
    let mut dots: Vec<char> = Vec::new();
    dots.push('.');
    dots.push('.');
    assert(dots@ =~= parent_part());
    let mut i: usize = 0;
    while i < parts.len()
        invariant
            i <= parts@.len(),
            dots@ == parent_part(),
            c@ == e@,
            parts@.len() == split_on(c@, '/').len(),
            forall|k: int| 0 <= k < parts@.len() ==> #[trigger] parts@[k]@ == split_on(c@, '/')[k],
            forall|k: int| 0 <= k < i ==> split_on(c@, '/')[k] != parent_part(),
        decreases parts@.len() - i,
    {
        if chars_equal(&parts[i], &dots) {
            assert(split_on(c@, '/')[i as int] == parent_part());
            return false;
        }
        i = i + 1;
    }
    true
}

/// The checks a rules file must pass, in the order they are made: entry points first,
/// then boundary prefixes.
pub fn validate(config: &RulesConfig) -> (r: Result<(), RulesError>)
    ensures
        r is Ok <==> (forall|i: int|
            0 <= i < config.entry_points@.len() ==> valid_entry(
                (#[trigger] config.entry_points@[i])@,
            )) && (forall|j: int|
            0 <= j < config.boundaries@.len() ==> valid_boundary(#[trigger] config.boundaries@[j])),
        r matches Err(RulesError::InvalidEntryPoint(e)) ==> exists|i: int|
            0 <= i < config.entry_points@.len() && e@ == (#[trigger] config.entry_points@[i])@
                && !valid_entry(e@) && forall|k: int|
                0 <= k < i ==> valid_entry((#[trigger] config.entry_points@[k])@),
        r matches Err(RulesError::EmptyBoundaryPrefix) ==> forall|i: int|
            0 <= i < config.entry_points@.len() ==> valid_entry(
                (#[trigger] config.entry_points@[i])@,
            ),
{
    let mut i: usize = 0;
    while i < config.entry_points.len()
        invariant
            i <= config.entry_points@.len(),
            forall|k: int| 0 <= k < i ==> valid_entry((#[trigger] config.entry_points@[k])@),
        decreases config.entry_points@.len() - i,
    {
        if !is_valid_entry(config.entry_points[i].as_str()) {
            return Err(RulesError::InvalidEntryPoint(config.entry_points[i].clone()));
        }
        i = i + 1;
    }
    let mut j: usize = 0;
    while j < config.boundaries.len()
        invariant
            j <= config.boundaries@.len(),
            forall|k: int| 0 <= k < j ==> valid_boundary(#[trigger] config.boundaries@[k]),
            forall|k: int| 0 <= k < config.entry_points@.len() ==> valid_entry((#[trigger] config.entry_points@[k])@),
        decreases config.boundaries@.len() - j,
    {
        let b = &config.boundaries[j];
        if b.from.as_str().is_empty() || b.disallow.as_str().is_empty() {
            return Err(RulesError::EmptyBoundaryPrefix);
        }
        j = j + 1;
    }
    Ok(())
}

impl RulesError {
    /// The explanation shown for a refused rules file.
    pub fn message(&self) -> (m: String)
        ensures
            m@ == match self {
                RulesError::InvalidEntryPoint(e) => "entryPoints must be project-relative paths using forward slashes: "@
                    + e@,
                RulesError::EmptyBoundaryPrefix => "boundary from/disallow prefixes cannot be empty"@,
            },
    {
        match self {
            RulesError::InvalidEntryPoint(e) => concat(
                "entryPoints must be project-relative paths using forward slashes: ",
                e.as_str(),
            ),
            RulesError::EmptyBoundaryPrefix => String::from_str(
                "boundary from/disallow prefixes cannot be empty",
            ),
        }
    }
}

/// The rule covers the edge: its source lies under `from` and its target under `disallow`.
pub open spec fn rule_applies(e: DependencyEdge, r: BoundaryRule) -> bool {
    has_prefix(e.from@, r.from@) && has_prefix(e.to@, r.disallow@)
}

/// The message of a violated rule: its own, or one naming both prefixes.
pub open spec fn rule_message(r: BoundaryRule) -> Seq<char> {
    match r.message {
        Some(m) => m@,
        None => r.from@ + " may not depend on "@ + r.disallow@,
    }
}

/// A violation as its three texts.
pub open spec fn violation_view(v: Violation) -> (Seq<char>, Seq<char>, Seq<char>) {
    (v.from@, v.to@, v.message@)
}

/// The violations of one edge, one per covering rule, in rule order.
pub open spec fn edge_violations(e: DependencyEdge, rules: Seq<BoundaryRule>) -> Seq<
    (Seq<char>, Seq<char>, Seq<char>),
>
    decreases rules.len(),
{
    if rules.len() == 0 {
        Seq::empty()
    } else {
        let prev = edge_violations(e, rules.drop_last());
        if rule_applies(e, rules.last()) {
            prev.push((e.from@, e.to@, rule_message(rules.last())))
        } else {
            prev
        }
    }
}

/// The violations of all edges, edge by edge.
pub open spec fn all_violations(edges: Seq<DependencyEdge>, rules: Seq<BoundaryRule>) -> Seq<
    (Seq<char>, Seq<char>, Seq<char>),
>
    decreases edges.len(),
{
    if edges.len() == 0 {
        Seq::empty()
    } else {
        all_violations(edges.drop_last(), rules) + edge_violations(edges.last(), rules)
    }
}

/// The message of a violated rule.
fn message_of(rule: &BoundaryRule) -> (m: String)
    ensures
        m@ == rule_message(*rule),
{
    match &rule.message {
        Some(m) => m.clone(),
        None => {
            let mut s = concat(rule.from.as_str(), " may not depend on ");
            s.append(rule.disallow.as_str());
            s
        },
    }
}

fn violations_for(edge: &DependencyEdge, config: &RulesConfig) -> (v: Vec<Violation>)
    ensures
        v@.map_values(|x: Violation| violation_view(x)) == edge_violations(*edge, config.boundaries@),
{
    let from = chars_of(edge.from.as_str());
    let to = chars_of(edge.to.as_str());
    let mut v: Vec<Violation> = Vec::new();
    let mut i: usize = 0;
    while i < config.boundaries.len()
        invariant
            i <= config.boundaries@.len(),
            from@ == edge.from@,
            to@ == edge.to@,
            v@.map_values(|x: Violation| violation_view(x)) == edge_violations(
                *edge,
                config.boundaries@.subrange(0, i as int),
            ),
        decreases config.boundaries@.len() - i,
    {
        let rule = &config.boundaries[i];
        let ghost prev = config.boundaries@.subrange(0, i as int);
        proof {
            assert(config.boundaries@.subrange(0, i + 1).drop_last() =~= prev);
        }
        if starts_with(&from, &chars_of(rule.from.as_str())) && starts_with(
            &to,
            &chars_of(rule.disallow.as_str()),
        ) {
            v.push(
                Violation {
                    from: edge.from.clone(),
                    to: edge.to.clone(),
                    message: message_of(rule),
                },
            );
        }
        i = i + 1;
        assert(v@.map_values(|x: Violation| violation_view(x)) =~= edge_violations(
            *edge,
            config.boundaries@.subrange(0, i as int),
        ));
    }
    assert(config.boundaries@.subrange(0, config.boundaries@.len() as int) =~= config.boundaries@);
    v
}

/// Every boundary violation of the report's edges: for each edge in order, one per
/// rule that covers it, in rule order.
pub fn evaluate(report: &AnalysisReport, config: &RulesConfig) -> (v: Vec<Violation>)
    ensures
        v@.map_values(|x: Violation| violation_view(x)) == all_violations(
            report.edges@,
            config.boundaries@,
        ),
{
    let mut v: Vec<Violation> = Vec::new();
    let mut k: usize = 0;
    while k < report.edges.len()
        invariant
            k <= report.edges@.len(),
            v@.map_values(|x: Violation| violation_view(x)) == all_violations(
                report.edges@.subrange(0, k as int),
                config.boundaries@,
            ),
        decreases report.edges@.len() - k,
    {
        let mut more = violations_for(&report.edges[k], config);
        let ghost before = v@;
        let ghost added = more@;
        v.append(&mut more);
        proof {
            let sub = report.edges@.subrange(0, k + 1);
            assert(sub.drop_last() =~= report.edges@.subrange(0, k as int));
            assert(sub.last() == report.edges@[k as int]);
            assert(v@ == before + added);
            assert(v@.map_values(|x: Violation| violation_view(x)) =~= before.map_values(
                |x: Violation| violation_view(x),
            ) + added.map_values(|x: Violation| violation_view(x)));
        }
        k = k + 1;
    }
    assert(report.edges@.subrange(0, report.edges@.len() as int) =~= report.edges@);
    v
}

} // verus!
