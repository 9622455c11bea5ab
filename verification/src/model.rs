//! The program model: graph nodes, guards, rules and programs, with their
//! mathematical views, plus the reserved reference spellings.

use vstd::prelude::*;
use crate::text::{decimal, decimal_string};

verus! {

/// The reserved prefix that marks a pattern reference as a binding variable.
pub const VARIABLE_PREFIX: char = '$';

/// The reserved anonymous wildcard reference.
pub const WILDCARD: &'static str = "_";

/// A node of a Links Notation graph: a reference or a link with an optional id
/// and ordered child values.
#[derive(Debug, PartialEq)]
pub enum Node {
    Ref(String),
    Link { id: Option<String>, values: Vec<Node> },
}

/// The mathematical value of a [`Node`].
pub enum NodeV {
    Ref(Seq<char>),
    Link { id: Option<Seq<char>>, values: Seq<NodeV> },
}

pub open spec fn opt_str_view(o: Option<String>) -> Option<Seq<char>> {
    match o {
        Some(s) => Some(s@),
        None => None,
    }
}

/// The view of a node, defined together with [`nodes_view`].
pub open spec fn node_view(n: Node) -> NodeV
    decreases n,
{
    match n {
        Node::Ref(s) => NodeV::Ref(s@),
        Node::Link { id, values } => NodeV::Link { id: opt_str_view(id), values: nodes_view(values@) },
    }
}

/// The views of a sequence of nodes, element by element.
pub open spec fn nodes_view(vs: Seq<Node>) -> Seq<NodeV>
    decreases vs,
{
    if vs.len() == 0 {
        Seq::empty()
    } else {
        nodes_view(vs.drop_last()).push(node_view(vs.last()))
    }
}

pub proof fn lemma_nodes_view(vs: Seq<Node>)
    ensures
        nodes_view(vs).len() == vs.len(),
        forall|i: int| 0 <= i < vs.len() ==> #[trigger] nodes_view(vs)[i] == node_view(vs[i]),
    decreases vs.len(),
{
    if vs.len() > 0 {
        lemma_nodes_view(vs.drop_last());
    }
}

impl View for Node {
    type V = NodeV;

    open spec fn view(&self) -> NodeV {
        node_view(*self)
    }
}

/// Structural equality of two nodes.
pub fn node_equal(a: &Node, b: &Node) -> (r: bool)
    ensures
        r == (a@ == b@),
    decreases a@,
{
    match a {
        Node::Ref(x) => match b {
            Node::Ref(y) => x.eq(y),
            Node::Link { .. } => false,
        },
        Node::Link { id: ia, values: va } => match b {
            Node::Ref(_) => false,
            Node::Link { id: ib, values: vb } => {
                proof {
                    lemma_nodes_view(va@);
                    lemma_nodes_view(vb@);
                }
                let same_id = match (ia, ib) {
                    (None, None) => true,
                    (Some(x), Some(y)) => x.eq(y),
                    _ => false,
                };
                if !same_id || va.len() != vb.len() {
                    return false;
                }
                let mut i: usize = 0;
                while i < va.len()
                    invariant
                        0 <= i <= va.len(),
                        va.len() == vb.len(),
                        a@ == (NodeV::Link { id: opt_str_view(*ia), values: nodes_view(va@) }),
                        b@ == (NodeV::Link { id: opt_str_view(*ib), values: nodes_view(vb@) }),
                        nodes_view(va@).len() == va.len(),
                        nodes_view(vb@).len() == vb.len(),
                        forall|j: int| 0 <= j < va.len() ==> #[trigger] nodes_view(va@)[j] == va@[j]@,
                        forall|j: int| 0 <= j < vb.len() ==> #[trigger] nodes_view(vb@)[j] == vb@[j]@,
                        forall|j: int| 0 <= j < i ==> va@[j]@ == vb@[j]@,
                    decreases va.len() - i,
                {
                    assert(nodes_view(va@)[i as int] == va@[i as int]@);
                    assert(decreases_to!(a@ => a@->values));
                    assert(decreases_to!(a@->values => a@->values[i as int]));
                    if !node_equal(&va[i], &vb[i]) {
                        assert(nodes_view(vb@)[i as int] == vb@[i as int]@);
                        return false;
                    }
                    i = i + 1;
                }
                assert(nodes_view(va@) =~= nodes_view(vb@));
                true
            },
        },
    }
}

/// Copies a node.
pub fn clone_node(n: &Node) -> (r: Node)
    ensures
        r@ == n@,
    decreases n@,
{
    match n {
        Node::Ref(s) => Node::Ref(s.clone()),
        Node::Link { id, values } => {
            proof {
                lemma_nodes_view(values@);
            }
            let new_id = match id {
                Some(s) => Some(s.clone()),
                None => None,
            };
            let mut out: Vec<Node> = Vec::new();
            let mut i: usize = 0;
            while i < values.len()
                invariant
                    0 <= i <= values.len(),
                    n@ == (NodeV::Link { id: opt_str_view(*id), values: nodes_view(values@) }),
                    nodes_view(values@).len() == values.len(),
                    forall|j: int| 0 <= j < values.len() ==> #[trigger] nodes_view(values@)[j] == values@[j]@,
                    out.len() == i,
                    forall|j: int| 0 <= j < i ==> #[trigger] out@[j]@ == values@[j]@,
                decreases values.len() - i,
            {
                assert(nodes_view(values@)[i as int] == values@[i as int]@);
                assert(decreases_to!(n@ => n@->values));
                assert(decreases_to!(n@->values => n@->values[i as int]));
                let c = clone_node(&values[i]);
                out.push(c);
                i = i + 1;
            }
            proof {
                lemma_nodes_view(out@);
                assert forall|j: int| 0 <= j < out.len() implies nodes_view(out@)[j] == nodes_view(values@)[j] by {
                    assert(out@[j]@ == values@[j]@);
                }
                assert(nodes_view(out@) =~= nodes_view(values@));
            }
            Node::Link { id: new_id, values: out }
        },
    }
}

impl Clone for Node {
    fn clone(&self) -> (r: Self)
        ensures
            r@ == self@,
    {
        clone_node(self)
    }
}

/// The variable name that a reference spells: the text after a leading `$`,
/// when there is any.
pub open spec fn spec_variable_name(reference: Seq<char>) -> Option<Seq<char>> {
    if reference.len() > 1 && reference[0] == '$' {
        Some(reference.skip(1))
    } else {
        None
    }
}

/// Whether a reference is the anonymous wildcard `_`.
pub open spec fn spec_is_wildcard(reference: Seq<char>) -> bool {
    reference =~= seq!['_']
}

/// Returns the variable name if the reference string denotes a variable.
pub fn variable_name(reference: &str) -> (r: Option<&str>)
    ensures
        r matches Some(name) ==> spec_variable_name(reference@) == Some(name@),
        r is None ==> spec_variable_name(reference@) is None,
{
    let n = reference.unicode_len();
    if n > 1 && reference.get_char(0) == VARIABLE_PREFIX {
        Some(reference.substring_char(1, n))
    } else {
        None
    }
}

/// Returns true when the reference string is the anonymous wildcard.
pub fn is_wildcard(reference: &str) -> (r: bool)
    ensures
        r == spec_is_wildcard(reference@),
{
    reference.unicode_len() == 1 && reference.get_char(0) == '_'
}

/// An optional structural guard evaluated after a pattern matches but before a
/// replacement is applied.
#[derive(Debug, PartialEq)]
pub enum Guard {
    /// Passes when the two operands resolve to structurally equal nodes.
    Equal(Node, Node),
    /// Passes when the two operands resolve to structurally different nodes.
    NotEqual(Node, Node),
    /// Passes when every nested guard passes.
    All(Vec<Guard>),
}

/// The mathematical value of a [`Guard`].
pub enum GuardV {
    Equal(NodeV, NodeV),
    NotEqual(NodeV, NodeV),
    All(Seq<GuardV>),
}

pub open spec fn guard_view(g: Guard) -> GuardV
    decreases g,
{
    match g {
        Guard::Equal(a, b) => GuardV::Equal(a@, b@),
        Guard::NotEqual(a, b) => GuardV::NotEqual(a@, b@),
        Guard::All(gs) => GuardV::All(guards_view(gs@)),
    }
}

pub open spec fn guards_view(gs: Seq<Guard>) -> Seq<GuardV>
    decreases gs,
{
    if gs.len() == 0 {
        Seq::empty()
    } else {
        guards_view(gs.drop_last()).push(guard_view(gs.last()))
    }
}

pub proof fn lemma_guards_view(gs: Seq<Guard>)
    ensures
        guards_view(gs).len() == gs.len(),
        forall|i: int| 0 <= i < gs.len() ==> #[trigger] guards_view(gs)[i] == guard_view(gs[i]),
    decreases gs.len(),
{
    if gs.len() > 0 {
        lemma_guards_view(gs.drop_last());
    }
}

impl View for Guard {
    type V = GuardV;

    open spec fn view(&self) -> GuardV {
        guard_view(*self)
    }
}

/// Copies a guard.
pub fn clone_guard(g: &Guard) -> (r: Guard)
    ensures
        r@ == g@,
    decreases g@,
{
    match g {
        Guard::Equal(a, b) => Guard::Equal(clone_node(a), clone_node(b)),
        Guard::NotEqual(a, b) => Guard::NotEqual(clone_node(a), clone_node(b)),
        Guard::All(gs) => {
            proof {
                lemma_guards_view(gs@);
            }
            let mut out: Vec<Guard> = Vec::new();
            let mut i: usize = 0;
            while i < gs.len()
                invariant
                    0 <= i <= gs.len(),
                    g@ == GuardV::All(guards_view(gs@)),
                    guards_view(gs@).len() == gs.len(),
                    forall|j: int| 0 <= j < gs.len() ==> #[trigger] guards_view(gs@)[j] == gs@[j]@,
                    out.len() == i,
                    forall|j: int| 0 <= j < i ==> #[trigger] out@[j]@ == gs@[j]@,
                decreases gs.len() - i,
            {
                assert(guards_view(gs@)[i as int] == gs@[i as int]@);
                assert(decreases_to!(g@ => g@->All_0));
                assert(decreases_to!(g@->All_0 => g@->All_0[i as int]));
                let c = clone_guard(&gs[i]);
                out.push(c);
                i = i + 1;
            }
            proof {
                lemma_guards_view(out@);
                assert forall|j: int| 0 <= j < out.len() implies guards_view(out@)[j] == guards_view(gs@)[j] by {
                    assert(out@[j]@ == gs@[j]@);
                }
                assert(guards_view(out@) =~= guards_view(gs@));
            }
            Guard::All(out)
        },
    }
}

impl Clone for Guard {
    fn clone(&self) -> (r: Self)
        ensures
            r@ == self@,
    {
        clone_guard(self)
    }
}

/// A single ordered rewrite rule.
#[derive(Debug, PartialEq)]
pub struct Rule {
    /// Optional human-readable name used in diagnostics and traces.
    pub name: Option<String>,
    /// Structural match pattern.
    pub pattern: Node,
    /// Structural replacement template.
    pub template: Node,
    /// Optional guard evaluated against the bindings.
    pub guard: Option<Guard>,
    /// Higher priority rules are considered first; ties break on declaration
    /// order.
    pub priority: i64,
    /// Declaration order, assigned by the compiler. Lower runs first.
    pub order: usize,
    /// Optional cap on how many times this rule may apply in a run.
    pub max_applications: Option<u64>,
    /// When true, applying this rule stops the run in a terminal-completion
    /// state.
    pub terminal: bool,
}

/// The mathematical value of a [`Rule`].
pub struct RuleV {
    pub name: Option<Seq<char>>,
    pub pattern: NodeV,
    pub template: NodeV,
    pub guard: Option<GuardV>,
    pub priority: i64,
    pub order: usize,
    pub max_applications: Option<u64>,
    pub terminal: bool,
}

pub open spec fn opt_guard_view(g: Option<Guard>) -> Option<GuardV> {
    match g {
        Some(g) => Some(g@),
        None => None,
    }
}

impl View for Rule {
    type V = RuleV;

    open spec fn view(&self) -> RuleV {
        RuleV {
            name: opt_str_view(self.name),
            pattern: self.pattern@,
            template: self.template@,
            guard: opt_guard_view(self.guard),
            priority: self.priority,
            order: self.order,
            max_applications: self.max_applications,
            terminal: self.terminal,
        }
    }
}

/// A rule can be labelled when it has a name or its 1-based position fits in a
/// `usize`.
pub open spec fn rule_labelable(r: RuleV) -> bool {
    r.name is Some || r.order < usize::MAX
}

/// The label of a rule: its name, or `rule#` and its 1-based declaration
/// position.
pub open spec fn spec_label(r: RuleV) -> Seq<char> {
    match r.name {
        Some(name) => name,
        None => "rule#"@ + decimal((r.order + 1) as nat),
    }
}

impl Rule {
    /// A convenience constructor for tests and embedders.
    pub fn new(pattern: Node, template: Node) -> (r: Rule)
        ensures
            r@ == (RuleV {
                name: None,
                pattern: pattern@,
                template: template@,
                guard: None,
                priority: 0,
                order: 0,
                max_applications: None,
                terminal: false,
            }),
    {
        Rule {
            name: None,
            pattern,
            template,
            guard: None,
            priority: 0,
            order: 0,
            max_applications: None,
            terminal: false,
        }
    }

    /// A stable label for diagnostics and traces.
    pub fn label(&self) -> (r: String)
        requires
            rule_labelable(self@),
        ensures
            r@ == spec_label(self@),
    {
        match &self.name {
            Some(name) => name.clone(),
            None => {
                let mut s = String::from_str("rule#");
                let number = decimal_string((self.order as u64) + 1);
                s.append(number.as_str());
                s
            },
        }
    }
}

/// Copies a rule.
pub fn clone_rule(r: &Rule) -> (out: Rule)
    ensures
        out@ == r@,
{
    Rule {
        name: match &r.name {
            Some(s) => Some(s.clone()),
            None => None,
        },
        pattern: clone_node(&r.pattern),
        template: clone_node(&r.template),
        guard: match &r.guard {
            Some(g) => Some(clone_guard(g)),
            None => None,
        },
        priority: r.priority,
        order: r.order,
        max_applications: r.max_applications,
        terminal: r.terminal,
    }
}

impl Clone for Rule {
    fn clone(&self) -> (r: Self)
        ensures
            r@ == self@,
    {
        clone_rule(self)
    }
}

/// A compiled, immutable transformer program.
#[derive(Debug, PartialEq)]
pub struct Program {
    /// Declared program grammar version, if any.
    pub version: Option<u64>,
    /// Rules in declaration order.
    pub rules: Vec<Rule>,
}

/// The mathematical value of a [`Program`].
pub struct ProgramV {
    pub version: Option<u64>,
    pub rules: Seq<RuleV>,
}

impl View for Program {
    type V = ProgramV;

    open spec fn view(&self) -> ProgramV {
        ProgramV { version: self.version, rules: self.rules@.map_values(|r: Rule| r@) }
    }
}

/// Whether rule `a` is scheduled before rule `b`: higher priority first, then
/// lower declaration order, then lower index.
pub open spec fn scheduled_before(rules: Seq<RuleV>, a: int, b: int) -> bool {
    ||| rules[a].priority > rules[b].priority
    ||| rules[a].priority == rules[b].priority && rules[a].order < rules[b].order
    ||| rules[a].priority == rules[b].priority && rules[a].order == rules[b].order && a < b
}

/// `order` lists every rule index exactly once, sorted by scheduling priority.
pub open spec fn is_scheduling_order(rules: Seq<RuleV>, order: Seq<usize>) -> bool {
    &&& order.len() == rules.len()
    &&& forall|k: int| 0 <= k < order.len() ==> #[trigger] order[k] < rules.len()
    &&& forall|j: int, k: int|
        0 <= j < k < order.len() ==> scheduled_before(rules, #[trigger] order[j] as int, #[trigger] order[k] as int)
}

/// Copies a program.
pub fn clone_program(p: &Program) -> (r: Program)
    ensures
        r@ == p@,
{
    let mut rules: Vec<Rule> = Vec::new();
    let mut i: usize = 0;
    while i < p.rules.len()
        invariant
            0 <= i <= p.rules.len(),
            rules.len() == i,
            forall|j: int| 0 <= j < i ==> #[trigger] rules@[j]@ == p.rules@[j]@,
        decreases p.rules.len() - i,
    {
        rules.push(clone_rule(&p.rules[i]));
        i = i + 1;
    }
    let r = Program { version: p.version, rules };
    assert(r@.rules =~= p@.rules);
    r
}

impl Clone for Program {
    fn clone(&self) -> (r: Self)
        ensures
            r@ == self@,
    {
        clone_program(self)
    }
}

impl Program {
    /// The program grammar version this build understands.
    pub const SUPPORTED_VERSION: u64 = 1;

    /// Returns rule indices ordered by scheduling priority: higher `priority`
    /// first, then declaration order (a stable order, so equal keys keep their
    /// index order).
    pub fn scheduling_order(&self) -> (r: Vec<usize>)
        ensures
            is_scheduling_order(self@.rules, r@),
    {
        let n = self.rules.len();
        let ghost rules = self@.rules;
        let mut result: Vec<usize> = Vec::new();
        let mut i: usize = 0;
        while i < n
            invariant
                0 <= i <= n,
                n == self.rules.len(),
                rules == self@.rules,
                rules.len() == n,
                result.len() == i,
                forall|k: int| 0 <= k < result.len() ==> #[trigger] result@[k] < i,
                forall|j: int, k: int|
                    0 <= j < k < result.len() ==> scheduled_before(rules, #[trigger] result@[j] as int, #[trigger] result@[k] as int),
            decreases n - i,
        {
            let pi = self.rules[i].priority;
            let oi = self.rules[i].order;
            let mut p: usize = 0;
            while p < result.len()
                invariant
                    0 <= p <= result.len(),
                    result.len() == i,
                    i < n,
                    n == self.rules.len(),
                    rules == self@.rules,
                    pi == rules[i as int].priority,
                    oi == rules[i as int].order,
                    forall|k: int| 0 <= k < result.len() ==> #[trigger] result@[k] < i,
                    forall|k: int| 0 <= k < p ==> scheduled_before(rules, #[trigger] result@[k] as int, i as int),
                ensures
                    0 <= p <= result.len(),
                    forall|k: int| 0 <= k < p ==> scheduled_before(rules, #[trigger] result@[k] as int, i as int),
                    p < result.len() ==> scheduled_before(rules, i as int, result@[p as int] as int),
                decreases result.len() - p,
            {
                let q = result[p];
                let pq = self.rules[q].priority;
                let oq = self.rules[q].order;
                if pi > pq || (pi == pq && oi < oq) {
                    break;
                }
                p = p + 1;
            }
            let ghost old_result = result@;
            result.insert(p, i);
            assert forall|j: int, k: int|
                0 <= j < k < result.len() implies scheduled_before(rules, #[trigger] result@[j] as int, #[trigger] result@[k] as int) by {
                if k < p {
                    assert(result@[j] == old_result[j] && result@[k] == old_result[k]);
                } else if k == p {
                    assert(result@[j] == old_result[j]);
                } else if j == p {
                    assert(result@[k] == old_result[k - 1]);
                    assert(scheduled_before(rules, i as int, old_result[p as int] as int));
                    if k - 1 > p {
                        assert(scheduled_before(rules, old_result[p as int] as int, old_result[k - 1] as int));
                    }
                } else if j < p {
                    assert(result@[j] == old_result[j] && result@[k] == old_result[k - 1]);
                } else {
                    assert(result@[j] == old_result[j - 1] && result@[k] == old_result[k - 1]);
                }
            }
            i = i + 1;
        }
        result
    }
}

} // verus!
