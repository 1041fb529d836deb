use vstd::prelude::*;
use vstd::utf8::{encode_utf8, encode_utf8_decode_utf8};

use crate::order::{
    bytes_less, lemma_lex_asymmetric, lemma_lex_connected, lemma_lex_irreflexive, lemma_lex_transitive,
};
use crate::trie::lex_lt;

verus! {

/// Where the rule files are read from and the rule-set files written to.
pub struct Setting {
    pub data_path: String,
    pub output_path: String,
}

/// The block types of a rule set.
#[derive(Clone, Copy, Debug, PartialEq, Eq, Structural)]
pub enum RuleType {
    Domain,
    DomainKeyword,
    DomainRegex,
    DomainFinal,
}

pub open spec fn rule_tag(t: RuleType) -> u8 {
    match t {
        RuleType::Domain => 2,
        RuleType::DomainKeyword => 3,
        RuleType::DomainRegex => 4,
        RuleType::DomainFinal => 0xFF,
    }
}

impl RuleType {
    /// The tag byte that opens a block of this type.
    pub fn tag(&self) -> (r: u8)
        ensures
            r == rule_tag(*self),
    {
        match self {
            RuleType::Domain => 2,
            RuleType::DomainKeyword => 3,
            RuleType::DomainRegex => 4,
            RuleType::DomainFinal => 0xFF,
        }
    }
}

/// The four kinds of rules, one per list of a `Rule`.
#[derive(Clone, Copy, Debug, PartialEq, Eq, Structural)]
pub enum RuleKind {
    Full,
    Suffix,
    Keyword,
    Regex,
}

/// The list of a rule collection that holds rules of kind `k`.
pub open spec fn bucket(r: RuleView, k: RuleKind) -> Seq<Seq<char>> {
    match k {
        RuleKind::Full => r.domain,
        RuleKind::Suffix => r.domain_suffix,
        RuleKind::Keyword => r.domain_keyword,
        RuleKind::Regex => r.domain_regex,
    }
}

/// Strings in strictly increasing order of their UTF-8 bytes; so, no repeats.
pub open spec fn strictly_sorted(v: Seq<Seq<char>>) -> bool {
    forall|i: int, j: int| 0 <= i < j < v.len() ==> lex_lt(encode_utf8(#[trigger] v[i]), encode_utf8(#[trigger] v[j]))
}

pub open spec fn string_seq(v: Seq<String>) -> Seq<Seq<char>> {
    v.map_values(|s: String| s@)
}

/// The four sets of rules of one rule set.
pub struct Rule {
    pub domain: Vec<String>,
    pub domain_suffix: Vec<String>,
    pub domain_keyword: Vec<String>,
    pub domain_regex: Vec<String>,
}

/// A rule collection as four sequences of strings.
pub struct RuleView {
    pub domain: Seq<Seq<char>>,
    pub domain_suffix: Seq<Seq<char>>,
    pub domain_keyword: Seq<Seq<char>>,
    pub domain_regex: Seq<Seq<char>>,
}

impl View for Rule {
    type V = RuleView;

    open spec fn view(&self) -> RuleView {
        RuleView {
            domain: string_seq(self.domain@),
            domain_suffix: string_seq(self.domain_suffix@),
            domain_keyword: string_seq(self.domain_keyword@),
            domain_regex: string_seq(self.domain_regex@),
        }
    }
}

/// Adds `s` to a strictly sorted list of strings, unless it is there already.
pub fn insert_sorted(v: &mut Vec<String>, s: String)
    requires
        strictly_sorted(string_seq(old(v)@)),
    ensures
        strictly_sorted(string_seq(final(v)@)),
        forall|x: Seq<char>|
            #[trigger] string_seq(final(v)@).contains(x) <==> (string_seq(old(v)@).contains(x) || x == s@),
{
    let ghost old_seq = string_seq(v@);
    let mut i: usize = 0;
    while i < v.len() && bytes_less(v[i].as_str().as_bytes(), s.as_str().as_bytes())
        invariant
            old_seq == string_seq(v@),
            i <= v@.len(),
            forall|k: int| 0 <= k < i ==> lex_lt(encode_utf8(#[trigger] old_seq[k]), encode_utf8(s@)),
        decreases v@.len() - i,
    {
        i += 1;
    }
    if i < v.len() && !bytes_less(s.as_str().as_bytes(), v[i].as_str().as_bytes()) {
        proof {
            let a = encode_utf8(old_seq[i as int]);
            let b = encode_utf8(s@);
            if a != b {
                lemma_lex_connected(a, b);
            }
            encode_utf8_decode_utf8(old_seq[i as int]);
            encode_utf8_decode_utf8(s@);
            assert(old_seq[i as int] == s@);
        }
        return;
    }
    v.insert(i, s);
    proof {
        let nv = string_seq(v@);
        assert(nv =~= old_seq.insert(i as int, s@));
        assert forall|a: int, b: int| 0 <= a < b < nv.len() implies lex_lt(
            encode_utf8(#[trigger] nv[a]),
            encode_utf8(#[trigger] nv[b]),
        ) by {
            if b == i {
            } else if a == i {
                if b > i + 1 {
                    lemma_lex_transitive(encode_utf8(s@), encode_utf8(old_seq[i as int]), encode_utf8(old_seq[b - 1]));
                }
            } else if a < i && b > i {
                assert(nv[b] == old_seq[b - 1]);
            }
        }
        assert forall|x: Seq<char>| nv.contains(x) <==> (old_seq.contains(x) || x == s@) by {
            if nv.contains(x) {
                let k = choose|k: int| 0 <= k < nv.len() && nv[k] == x;
                if k < i {
                    assert(old_seq[k] == x);
                } else if k > i {
                    assert(old_seq[k - 1] == x);
                }
            }
            if old_seq.contains(x) {
                let k = choose|k: int| 0 <= k < old_seq.len() && old_seq[k] == x;
                if k < i {
                    assert(nv[k] == x);
                } else {
                    assert(nv[k + 1] == x);
                }
            }
            if x == s@ {
                assert(nv[i as int] == x);
            }
        }
    }
}

/// Adds each string of `items` to a strictly sorted list.
pub fn extend_sorted(v: &mut Vec<String>, items: &Vec<String>)
    requires
        strictly_sorted(string_seq(old(v)@)),
    ensures
        strictly_sorted(string_seq(final(v)@)),
        forall|x: Seq<char>|
            #[trigger] string_seq(final(v)@).contains(x) <==> (string_seq(old(v)@).contains(x) || string_seq(
                items@,
            ).contains(x)),
{
    let ghost start = string_seq(v@);
    let ghost all = string_seq(items@);
    let mut i: usize = 0;
    while i < items.len()
        invariant
            all == string_seq(items@),
            i <= items@.len(),
            strictly_sorted(string_seq(v@)),
            forall|x: Seq<char>|
                #[trigger] string_seq(v@).contains(x) <==> (start.contains(x) || all.take(i as int).contains(x)),
        decreases items@.len() - i,
    {
        let s = items[i].clone();
        let ghost sv = s@;
        assert(sv == all[i as int]);
        let ghost before = string_seq(v@);
        insert_sorted(v, s);
        proof {
            let after = string_seq(v@);
            assert forall|x: Seq<char>| all.take(i + 1).contains(x) <==> (all.take(i as int).contains(x) || x == sv) by {
                if all.take(i + 1).contains(x) {
                    let k = choose|k: int| 0 <= k < i + 1 && #[trigger] all.take(i + 1)[k] == x;
                    if k < i {
                        assert(all.take(i as int)[k] == x);
                    }
                }
                if all.take(i as int).contains(x) {
                    let k = choose|k: int| 0 <= k < i && #[trigger] all.take(i as int)[k] == x;
                    assert(all.take(i + 1)[k] == x);
                }
                if x == sv {
                    assert(all.take(i + 1)[i as int] == x);
                }
            }
            assert forall|x: Seq<char>| #[trigger] after.contains(x) <==> (start.contains(x) || all.take(i + 1).contains(x)) by {
                assert(after.contains(x) <==> (before.contains(x) || x == sv));
                assert(before.contains(x) <==> (start.contains(x) || all.take(i as int).contains(x)));
                assert(all.take(i + 1).contains(x) <==> (all.take(i as int).contains(x) || x == sv));
            }
        }
        i += 1;
    }
    assert(all.take(i as int) =~= all);
}

impl Rule {
    /// Each of the four lists is strictly sorted.
    pub open spec fn wf(&self) -> bool {
        &&& strictly_sorted(self@.domain)
        &&& strictly_sorted(self@.domain_suffix)
        &&& strictly_sorted(self@.domain_keyword)
        &&& strictly_sorted(self@.domain_regex)
    }

    /// A collection with no rules.
    pub fn new() -> (r: Rule)
        ensures
            r.wf(),
            r@.domain.len() == 0,
            r@.domain_suffix.len() == 0,
            r@.domain_keyword.len() == 0,
            r@.domain_regex.len() == 0,
    {
        Rule {
            domain: Vec::new(),
            domain_suffix: Vec::new(),
            domain_keyword: Vec::new(),
            domain_regex: Vec::new(),
        }
    }

    /// Adds every rule of `rhs`.
    pub fn add_assign(&mut self, rhs: Rule)
        requires
            old(self).wf(),
        ensures
            final(self).wf(),
            forall|x: Seq<char>|
                final(self)@.domain.contains(x) <==> (old(self)@.domain.contains(x) || rhs@.domain.contains(x)),
            forall|x: Seq<char>|
                final(self)@.domain_suffix.contains(x) <==> (old(self)@.domain_suffix.contains(x)
                    || rhs@.domain_suffix.contains(x)),
            forall|x: Seq<char>|
                final(self)@.domain_keyword.contains(x) <==> (old(self)@.domain_keyword.contains(x)
                    || rhs@.domain_keyword.contains(x)),
            forall|x: Seq<char>|
                final(self)@.domain_regex.contains(x) <==> (old(self)@.domain_regex.contains(x)
                    || rhs@.domain_regex.contains(x)),
    {
        let ghost o = self@;
        extend_sorted(&mut self.domain, &rhs.domain);
        extend_sorted(&mut self.domain_suffix, &rhs.domain_suffix);
        extend_sorted(&mut self.domain_keyword, &rhs.domain_keyword);
        extend_sorted(&mut self.domain_regex, &rhs.domain_regex);
        let ghost n = self@;
        assert forall|x: Seq<char>| #[trigger] n.domain.contains(x) <==> (o.domain.contains(x) || rhs@.domain.contains(x)) by {
            assert(string_seq(self.domain@).contains(x) <==> (o.domain.contains(x) || string_seq(rhs.domain@).contains(x)));
        }
        assert forall|x: Seq<char>| #[trigger] n.domain_suffix.contains(x) <==> (o.domain_suffix.contains(x) || rhs@.domain_suffix.contains(x)) by {
            assert(string_seq(self.domain_suffix@).contains(x) <==> (o.domain_suffix.contains(x) || string_seq(rhs.domain_suffix@).contains(x)));
        }
        assert forall|x: Seq<char>| #[trigger] n.domain_keyword.contains(x) <==> (o.domain_keyword.contains(x) || rhs@.domain_keyword.contains(x)) by {
            assert(string_seq(self.domain_keyword@).contains(x) <==> (o.domain_keyword.contains(x) || string_seq(rhs.domain_keyword@).contains(x)));
        }
        assert forall|x: Seq<char>| #[trigger] n.domain_regex.contains(x) <==> (o.domain_regex.contains(x) || rhs@.domain_regex.contains(x)) by {
            assert(string_seq(self.domain_regex@).contains(x) <==> (o.domain_regex.contains(x) || string_seq(rhs.domain_regex@).contains(x)));
        }
    }

    /// Adds a rule of kind `kind`.
    pub fn add(&mut self, kind: RuleKind, s: String)
        requires
            old(self).wf(),
        ensures
            final(self).wf(),
            forall|x: Seq<char>|
                #[trigger] bucket(final(self)@, kind).contains(x) <==> (bucket(old(self)@, kind).contains(x) || x
                    == s@),
            forall|k: RuleKind| k != kind ==> #[trigger] bucket(final(self)@, k) == bucket(old(self)@, k),
    {
        match kind {
            RuleKind::Full => self.insert_domain(s),
            RuleKind::Suffix => self.insert_domain_suffix(s),
            RuleKind::Keyword => self.insert_domain_keyword(s),
            RuleKind::Regex => self.insert_domain_regex(s),
        }
    }

    /// Adds an exact domain.
    pub fn insert_domain(&mut self, s: String)
        requires
            old(self).wf(),
        ensures
            final(self).wf(),
            forall|x: Seq<char>| final(self)@.domain.contains(x) <==> (old(self)@.domain.contains(x) || x == s@),
            final(self)@.domain_suffix == old(self)@.domain_suffix,
            final(self)@.domain_keyword == old(self)@.domain_keyword,
            final(self)@.domain_regex == old(self)@.domain_regex,
    {
        insert_sorted(&mut self.domain, s);
    }

    /// Adds a domain suffix.
    pub fn insert_domain_suffix(&mut self, s: String)
        requires
            old(self).wf(),
        ensures
            final(self).wf(),
            forall|x: Seq<char>|
                final(self)@.domain_suffix.contains(x) <==> (old(self)@.domain_suffix.contains(x) || x == s@),
            final(self)@.domain == old(self)@.domain,
            final(self)@.domain_keyword == old(self)@.domain_keyword,
            final(self)@.domain_regex == old(self)@.domain_regex,
    {
        insert_sorted(&mut self.domain_suffix, s);
    }

    /// Adds a keyword.
    pub fn insert_domain_keyword(&mut self, s: String)
        requires
            old(self).wf(),
        ensures
            final(self).wf(),
            forall|x: Seq<char>|
                final(self)@.domain_keyword.contains(x) <==> (old(self)@.domain_keyword.contains(x) || x == s@),
            final(self)@.domain == old(self)@.domain,
            final(self)@.domain_suffix == old(self)@.domain_suffix,
            final(self)@.domain_regex == old(self)@.domain_regex,
    {
        insert_sorted(&mut self.domain_keyword, s);
    }

    /// Adds a regular expression.
    pub fn insert_domain_regex(&mut self, s: String)
        requires
            old(self).wf(),
        ensures
            final(self).wf(),
            forall|x: Seq<char>|
                final(self)@.domain_regex.contains(x) <==> (old(self)@.domain_regex.contains(x) || x == s@),
            final(self)@.domain == old(self)@.domain,
            final(self)@.domain_suffix == old(self)@.domain_suffix,
            final(self)@.domain_keyword == old(self)@.domain_keyword,
    {
        insert_sorted(&mut self.domain_regex, s);
    }
}

} // verus!

verus! {

/// Two strictly sorted lists that hold the same strings are the same list.
pub proof fn lemma_strictly_sorted_unique(a: Seq<Seq<char>>, b: Seq<Seq<char>>)
    requires
        strictly_sorted(a),
        strictly_sorted(b),
        forall|x: Seq<char>| a.contains(x) <==> b.contains(x),
    ensures
        a == b,
    decreases a.len(),
{
    if a.len() == 0 {
        if b.len() > 0 {
            assert(b.contains(b[0]));
        }
        assert(a =~= b);
    } else {
        assert(a.contains(a[0]));
        let k = choose|k: int| 0 <= k < b.len() && b[k] == a[0];
        assert(b.contains(b[0]));
        let m = choose|m: int| 0 <= m < a.len() && a[m] == b[0];
        if k > 0 {
            assert(lex_lt(encode_utf8(b[0]), encode_utf8(b[k])));
            if m == 0 {
                lemma_lex_irreflexive(encode_utf8(a[0]));
            } else {
                assert(lex_lt(encode_utf8(a[0]), encode_utf8(a[m])));
                lemma_lex_asymmetric(encode_utf8(a[0]), encode_utf8(b[0]));
            }
        }
        assert(a[0] == b[0]);
        let ra = a.drop_first();
        let rb = b.drop_first();
        assert forall|x: Seq<char>| ra.contains(x) <==> rb.contains(x) by {
            if ra.contains(x) {
                let i = choose|i: int| 0 <= i < ra.len() && ra[i] == x;
                assert(a[i + 1] == x);
                assert(lex_lt(encode_utf8(a[0]), encode_utf8(x)));
                lemma_lex_irreflexive(encode_utf8(x));
                assert(b.contains(x));
                let j = choose|j: int| 0 <= j < b.len() && b[j] == x;
                assert(j != 0);
                assert(rb[j - 1] == x);
            }
            if rb.contains(x) {
                let i = choose|i: int| 0 <= i < rb.len() && rb[i] == x;
                assert(b[i + 1] == x);
                assert(lex_lt(encode_utf8(b[0]), encode_utf8(x)));
                lemma_lex_irreflexive(encode_utf8(x));
                assert(a.contains(x));
                let j = choose|j: int| 0 <= j < a.len() && a[j] == x;
                assert(j != 0);
                assert(ra[j - 1] == x);
            }
        }
        lemma_strictly_sorted_unique(ra, rb);
        assert(a =~= seq![a[0]] + ra);
        assert(b =~= seq![b[0]] + rb);
    }
}

} // verus!
