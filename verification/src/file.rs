//! Build files: named collections of rules.

use vstd::prelude::*;

use crate::rule::Rule;

verus! {

/// A build file, holding each rule under its name.
///
/// Names are expected to be unique; a lookup returns the first entry under
/// the given name.
pub struct File {
    /// The rules, each under its name.
    pub rules: Vec<(String, Rule)>,
}

/// `i` is the position of the first rule entry named `name`.
pub open spec fn is_first_rule(rules: Seq<(String, Rule)>, name: Seq<char>, i: int) -> bool {
    &&& 0 <= i < rules.len()
    &&& rules[i].0@ == name
    &&& forall|j: int| 0 <= j < i ==> rules[j].0@ != name
}

impl File {
    /// A reference to the rule under `name`, if one exists.
    pub fn get(&self, name: &String) -> (r: Option<&Rule>)
        ensures
            match r {
                Some(rule) => exists|i: int|
                    #[trigger] is_first_rule(self.rules@, name@, i) && *rule == self.rules@[i].1,
                None => forall|i: int|
                    0 <= i < self.rules@.len() ==> (#[trigger] self.rules@[i]).0@ != name@,
            },
    {
        let mut i: usize = 0;
        while i < self.rules.len()
            invariant
                i <= self.rules@.len(),
                forall|j: int| 0 <= j < i ==> (#[trigger] self.rules@[j]).0@ != name@,
            decreases self.rules@.len() - i,
        {
            if self.rules[i].0 == *name {
                proof {
                    assert(is_first_rule(self.rules@, name@, i as int));
                }
                return Some(&self.rules[i].1);
            }
            i += 1;
        }
        None
    }

}

} // verus!
