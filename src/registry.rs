//! The registry of known groups and rules, used to validate suppression targets.
use vstd::prelude::*;
use vstd::string::StringSliceAdditionalSpecFns;

verus! {

/// Whether the byte ranges `a[a_start..a_end]` and `b` hold the same bytes.
pub fn bytes_eq_at(a: &[u8], a_start: usize, a_end: usize, b: &[u8]) -> (r: bool)
    requires
        a_start <= a_end <= a@.len(),
    ensures
        r == (a@.subrange(a_start as int, a_end as int) == b@),
{
    if a_end - a_start != b.len() {
        proof {
            assert(a@.subrange(a_start as int, a_end as int).len() != b@.len());
        }
        return false;
    }
    let mut i: usize = 0;
    while i < b.len()
        invariant
            a_start <= a_end <= a@.len(),
            a_end - a_start == b@.len(),
            0 <= i <= b@.len(),
            forall|j: int| 0 <= j < i ==> a@[a_start + j] == b@[j],
        decreases b@.len() - i,
    {
        if a[a_start + i] != b[i] {
            proof {
                assert(a@.subrange(a_start as int, a_end as int)[i as int] != b@[i as int]);
            }
            return false;
        }
        i = i + 1;
    }
    proof {
        assert(a@.subrange(a_start as int, a_end as int) =~= b@);
    }
    true
}

/// The set of registered rules, each a group name and a rule name.
pub struct MetadataRegistry {
    rules: Vec<(&'static str, &'static str)>,
}

impl MetadataRegistry {
    /// The registered (group, rule) pairs, as the UTF-8 bytes of their names.
    pub closed spec fn entries(&self) -> Seq<(Seq<u8>, Seq<u8>)> {
        self.rules@.map_values(|p: (&'static str, &'static str)| (p.0.spec_bytes(), p.1.spec_bytes()))
    }

    /// Whether a group of that name is registered.
    pub open spec fn spec_has_group(&self, group: Seq<u8>) -> bool {
        exists|i: int| 0 <= i < self.entries().len() && (#[trigger] self.entries()[i]).0 == group
    }

    /// Whether a rule of that name is registered in that group.
    pub open spec fn spec_has_rule(&self, group: Seq<u8>, rule: Seq<u8>) -> bool {
        exists|i: int| 0 <= i < self.entries().len() && #[trigger] self.entries()[i] == (group, rule)
    }

    pub fn new() -> (r: MetadataRegistry)
        ensures
            r.entries() == Seq::<(Seq<u8>, Seq<u8>)>::empty(),
    {
        MetadataRegistry { rules: Vec::new() }
    }

    /// Registers the rule `rule` in the group `group`.
    pub fn insert_rule(&mut self, group: &'static str, rule: &'static str)
        ensures
            final(self).entries() == old(self).entries().push((group.spec_bytes(), rule.spec_bytes())),
    {
        self.rules.push((group, rule));
        proof {
            assert(final(self).entries() =~= old(self).entries().push((group.spec_bytes(), rule.spec_bytes())));
        }
    }

    /// The registered group whose name is `text[start..end]`, if any.
    pub fn find_group(&self, text: &[u8], start: usize, end: usize) -> (r: Option<&'static str>)
        requires
            start <= end <= text@.len(),
        ensures
            r is Some <==> self.spec_has_group(text@.subrange(start as int, end as int)),
            r matches Some(g) ==> g.spec_bytes() == text@.subrange(start as int, end as int),
    {
        let mut i: usize = 0;
        while i < self.rules.len()
            invariant
                start <= end <= text@.len(),
                0 <= i <= self.rules@.len(),
                forall|j: int| 0 <= j < i ==> (#[trigger] self.entries()[j]).0 != text@.subrange(start as int, end as int),
            decreases self.rules@.len() - i,
        {
            let g = self.rules[i].0;
            if bytes_eq_at(text, start, end, g.as_bytes()) {
                proof {
                    assert(self.entries()[i as int].0 == text@.subrange(start as int, end as int));
                }
                return Some(g);
            }
            i = i + 1;
        }
        None
    }

    /// The registered rule named `text[g_start..g_end]` / `text[r_start..r_end]`, if any.
    pub fn find_rule(&self, text: &[u8], g_start: usize, g_end: usize, r_start: usize, r_end: usize) -> (r: Option<(&'static str, &'static str)>)
        requires
            g_start <= g_end <= text@.len(),
            r_start <= r_end <= text@.len(),
        ensures
            r is Some <==> self.spec_has_rule(text@.subrange(g_start as int, g_end as int), text@.subrange(r_start as int, r_end as int)),
            r matches Some(p) ==> p.0.spec_bytes() == text@.subrange(g_start as int, g_end as int)
                && p.1.spec_bytes() == text@.subrange(r_start as int, r_end as int),
    {
        let mut i: usize = 0;
        while i < self.rules.len()
            invariant
                g_start <= g_end <= text@.len(),
                r_start <= r_end <= text@.len(),
                0 <= i <= self.rules@.len(),
                forall|j: int| 0 <= j < i ==> #[trigger] self.entries()[j] != (text@.subrange(g_start as int, g_end as int), text@.subrange(r_start as int, r_end as int)),
            decreases self.rules@.len() - i,
        {
            let p = self.rules[i];
            if bytes_eq_at(text, g_start, g_end, p.0.as_bytes()) && bytes_eq_at(text, r_start, r_end, p.1.as_bytes()) {
                proof {
                    assert(self.entries()[i as int] == (text@.subrange(g_start as int, g_end as int), text@.subrange(r_start as int, r_end as int)));
                }
                return Some(p);
            }
            i = i + 1;
        }
        None
    }

    /// Whether a group named `group` is registered.
    pub fn has_group(&self, group: &str) -> (r: bool)
        ensures
            r == self.spec_has_group(group.spec_bytes()),
    {
        let b = group.as_bytes();
        proof {
            assert(b@.subrange(0, b@.len() as int) =~= b@);
        }
        self.find_group(b, 0, b.len()).is_some()
    }

    /// Whether a rule named `rule` is registered in the group `group`.
    pub fn has_rule(&self, group: &str, rule: &str) -> (r: bool)
        ensures
            r == self.spec_has_rule(group.spec_bytes(), rule.spec_bytes()),
    {
        let g = group.as_bytes();
        let x = rule.as_bytes();
        let mut i: usize = 0;
        while i < self.rules.len()
            invariant
                g@ == group.spec_bytes(),
                x@ == rule.spec_bytes(),
                0 <= i <= self.rules@.len(),
                forall|j: int| 0 <= j < i ==> #[trigger] self.entries()[j] != (g@, x@),
            decreases self.rules@.len() - i,
        {
            let p = self.rules[i];
            proof {
                assert(g@.subrange(0, g@.len() as int) =~= g@);
                assert(x@.subrange(0, x@.len() as int) =~= x@);
            }
            if bytes_eq_at(g, 0, g.len(), p.0.as_bytes()) && bytes_eq_at(x, 0, x.len(), p.1.as_bytes()) {
                proof {
                    assert(self.entries()[i as int] == (g@, x@));
                }
                return true;
            }
            i = i + 1;
        }
        false
    }
}

} // verus!
