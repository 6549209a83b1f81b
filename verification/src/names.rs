//! Generating unique temporary names.
use vstd::prelude::*;
use crate::text::{decimal, lemma_decimal_injective, push_char, push_string, text, write_decimal};

verus! {

/// The `k`-th name of a generator with the given prefix: `_prefix_k`.
pub open spec fn temp_name(prefix: Seq<char>, k: nat) -> Seq<char> {
    seq!['_'] + prefix + seq!['_'] + decimal(k)
}

/// The counter after one more name is drawn (it stops at `usize::MAX`).
pub open spec fn next_count(c: nat) -> nat {
    if c < usize::MAX { c + 1 } else { c }
}

/// Helper for generating unique temporary names, `_prefix_1`, `_prefix_2`, ...
pub struct TempNameGenerator {
    name: String,
    number: usize,
}

impl TempNameGenerator {
    /// The prefix of the generated names.
    pub closed spec fn prefix(&self) -> Seq<char> {
        self.name@
    }

    /// How many names were drawn so far.
    pub closed spec fn count(&self) -> nat {
        self.number as nat
    }

    /// Create a new name generator with the given prefix.
    pub fn new(name: &str) -> (r: Self)
        ensures
            r.prefix() == name@,
            r.count() == 0,
    {
        TempNameGenerator { name: text(name), number: 0 }
    }

    /// Get the next unique name from the generator.
    pub fn next(&mut self) -> (r: String)
        ensures
            final(self).prefix() == old(self).prefix(),
            final(self).count() == next_count(old(self).count()),
            r@ == temp_name(old(self).prefix(), next_count(old(self).count())),
    {
        if self.number < usize::MAX {
            self.number += 1;
        }
        let mut s = String::new();
        push_char(&mut s, '_');
        push_string(&mut s, &self.name);
        push_char(&mut s, '_');
        write_decimal(&mut s, self.number as u64);
        assert(s@ =~= temp_name(old(self).prefix(), next_count(old(self).count())));
        s
    }
}

/// Names drawn at different counts of one generator differ.
pub proof fn lemma_temp_names_distinct(prefix: Seq<char>, a: nat, b: nat)
    requires
        a != b,
    ensures
        temp_name(prefix, a) != temp_name(prefix, b),
{
    if temp_name(prefix, a) == temp_name(prefix, b) {
        let k = prefix.len() + 2;
        assert(temp_name(prefix, a).subrange(k as int, temp_name(prefix, a).len() as int)
            =~= decimal(a));
        assert(temp_name(prefix, b).subrange(k as int, temp_name(prefix, b).len() as int)
            =~= decimal(b));
        lemma_decimal_injective(a, b);
    }
}

/// Two successive names drawn from a generator differ (while the counter has not reached
/// `usize::MAX`).
pub proof fn lemma_successive_names_distinct(prefix: Seq<char>, c: nat)
    requires
        c + 1 < usize::MAX,
    ensures
        temp_name(prefix, next_count(c)) != temp_name(prefix, next_count(next_count(c))),
{
    lemma_temp_names_distinct(prefix, next_count(c), next_count(next_count(c)));
}

} // verus!
