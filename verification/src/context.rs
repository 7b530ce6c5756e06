//! Where the rules of a schema are found.
use vstd::prelude::*;

use crate::ivt::Node;
use crate::util::{ErrorView, ValidateError};

verus! {

/// What each rule name stands for: a node, or the error that comes of looking it up.
pub type Rules = spec_fn(Seq<char>) -> Result<Node, ErrorView>;

/// A place where rules are looked up by name.
pub trait Context {
    /// What each rule name stands for.
    spec fn rules(&self) -> Rules;

    /// Looks up a rule.
    fn lookup_rule(&self, name: &str) -> (r: Result<&Node, ValidateError>)
        ensures
            match r {
                Ok(node) => (self.rules())(name@) == Ok::<Node, ErrorView>(*node),
                Err(e) => (self.rules())(name@) == Err::<Node, ErrorView>(e@),
            },
    ;
}

/// A set of rules held in memory.
#[derive(Debug)]
pub struct BasicContext {
    rules: Vec<(String, Node)>,
}

/// The last of the first `n` definitions that bears a name.
spec fn last_definition(rules: Seq<(String, Node)>, name: Seq<char>, n: int) -> Option<Node>
    decreases n,
{
    if n <= 0 || n > rules.len() {
        None
    } else if rules[n - 1].0@ == name {
        Some(rules[n - 1].1)
    } else {
        last_definition(rules, name, n - 1)
    }
}

impl BasicContext {
    /// The node that a name stands for.
    pub closed spec fn definition(&self, name: Seq<char>) -> Option<Node> {
        last_definition(self.rules@, name, self.rules@.len() as int)
    }

    /// The set that holds no rule.
    pub fn new() -> (r: Self)
        ensures
            forall|name: Seq<char>| #[trigger] r.definition(name) is None,
    {
        BasicContext { rules: Vec::new() }
    }

    /// Defines a rule, in the place of an earlier definition of the same name.
    pub fn define(&mut self, name: String, node: Node)
        ensures
            forall|n: Seq<char>| #[trigger]
                final(self).definition(n) == (if n == name@ {
                    Some(node)
                } else {
                    old(self).definition(n)
                }),
    {
        let ghost before = self.rules@;
        self.rules.push((name, node));
        proof {
            assert forall|n: Seq<char>| #[trigger] self.definition(n) == (if n == name@ {
                Some(node)
            } else {
                last_definition(before, n, before.len() as int)
            }) by {
                lemma_same_prefix(before, self.rules@, n, before.len() as int);
            }
        }
    }
}

proof fn lemma_same_prefix(a: Seq<(String, Node)>, b: Seq<(String, Node)>, name: Seq<char>, n: int)
    requires
        0 <= n <= a.len() <= b.len(),
        forall|i: int| 0 <= i < n ==> a[i] == b[i],
    ensures
        last_definition(a, name, n) == last_definition(b, name, n),
    decreases n,
{
    if n > 0 {
        lemma_same_prefix(a, b, name, n - 1);
    }
}

impl Context for BasicContext {
    open spec fn rules(&self) -> Rules {
        |name: Seq<char>|
            match self.definition(name) {
                Some(node) => Ok(node),
                None => Err(ErrorView::MissingRule(name)),
            }
    }

    fn lookup_rule(&self, name: &str) -> (r: Result<&Node, ValidateError>) {
        let wanted = name.to_owned();
        let mut n: usize = self.rules.len();
        while n > 0
            invariant
                n <= self.rules@.len(),
                wanted@ == name@,
                self.definition(name@) == last_definition(self.rules@, name@, n as int),
            decreases n,
        {
            n -= 1;
            if self.rules[n].0 == wanted {
                return Ok(&self.rules[n].1);
            }
        }
        Err(ValidateError::MissingRule(wanted))
    }
}

} // verus!
