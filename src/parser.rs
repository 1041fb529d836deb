use vstd::prelude::*;
use vstd::string::StrSliceExecFns;

use crate::model::RuleKind;

verus! {

/// Characters with the Unicode `White_Space` property, the ones that
/// `char::is_whitespace` accepts.
pub open spec fn is_space(c: char) -> bool {
    let v = c as u32;
    ||| 0x09 <= v <= 0x0D
    ||| v == 0x20
    ||| v == 0x85
    ||| v == 0xA0
    ||| v == 0x1680
    ||| 0x2000 <= v <= 0x200A
    ||| v == 0x2028
    ||| v == 0x2029
    ||| v == 0x202F
    ||| v == 0x205F
    ||| v == 0x3000
}

fn space(c: char) -> (r: bool)
    ensures
        r == is_space(c),
{
    let v = c as u32;
    (0x09 <= v && v <= 0x0D) || v == 0x20 || v == 0x85 || v == 0xA0 || v == 0x1680 || (0x2000 <= v
        && v <= 0x200A) || v == 0x2028 || v == 0x2029 || v == 0x202F || v == 0x205F || v == 0x3000
}

pub open spec fn trim_start(s: Seq<char>) -> Seq<char>
    decreases s.len(),
{
    if s.len() > 0 && is_space(s[0]) {
        trim_start(s.drop_first())
    } else {
        s
    }
}

pub open spec fn trim_end(s: Seq<char>) -> Seq<char>
    decreases s.len(),
{
    if s.len() > 0 && is_space(s.last()) {
        trim_end(s.drop_last())
    } else {
        s
    }
}

/// `s` without leading and trailing white space.
pub open spec fn trimmed(s: Seq<char>) -> Seq<char> {
    trim_end(trim_start(s))
}

/// Index of the first `c` in `s`.
pub open spec fn find_char(s: Seq<char>, c: char) -> Option<int>
    decreases s.len(),
{
    if s.len() == 0 {
        None
    } else if s[0] == c {
        Some(0)
    } else {
        match find_char(s.drop_first(), c) {
            Some(p) => Some(p + 1),
            None => None,
        }
    }
}

/// What comes before the first `c`, or all of `s`.
pub open spec fn before_char(s: Seq<char>, c: char) -> Seq<char> {
    match find_char(s, c) {
        Some(p) => s.take(p),
        None => s,
    }
}

/// What comes after the first `c`, or all of `s`.
pub open spec fn after_char(s: Seq<char>, c: char) -> Seq<char> {
    match find_char(s, c) {
        Some(p) => s.skip(p + 1),
        None => s,
    }
}

/// A line without its comment, trimmed.
pub open spec fn line_body(line: Seq<char>) -> Seq<char> {
    trimmed(before_char(line, '#'))
}

/// The directive of a line: what stands before its first colon.
pub open spec fn line_directive(line: Seq<char>) -> Option<Seq<char>> {
    let l = line_body(line);
    match find_char(l, ':') {
        Some(p) => Some(trimmed(l.take(p))),
        None => None,
    }
}

/// What follows the directive, attribute included.
pub open spec fn line_rest(line: Seq<char>) -> Seq<char> {
    trimmed(after_char(line_body(line), ':'))
}

/// The rule itself, without directive and attribute.
pub open spec fn line_content(line: Seq<char>) -> Seq<char> {
    trimmed(before_char(line_rest(line), '@'))
}

/// The attribute of a line: what follows its first `@`.
pub open spec fn line_attribute(line: Seq<char>) -> Option<Seq<char>> {
    let r = line_rest(line);
    match find_char(r, '@') {
        Some(p) => Some(trimmed(r.skip(p + 1))),
        None => None,
    }
}

/// First index of `c` in `s[from..to]`.
fn find_in(s: &str, c: char, from: usize, to: usize) -> (r: Option<usize>)
    requires
        from <= to <= s@.len(),
    ensures
        r matches Some(p) ==> from <= p < to && find_char(s@.subrange(from as int, to as int), c) == Some(
            p - from,
        ),
        r is None ==> find_char(s@.subrange(from as int, to as int), c) is None,
{
    let mut i: usize = from;
    while i < to
        invariant
            from <= i <= to <= s@.len(),
            find_char(s@.subrange(from as int, to as int), c) == (match find_char(s@.subrange(i as int, to as int), c) {
                Some(p) => Some(p + (i - from)),
                None => None::<int>,
            }),
        decreases to - i,
    {
        assert(s@.subrange(i as int, to as int).drop_first() =~= s@.subrange(i + 1, to as int));
        if s.get_char(i) == c {
            return Some(i);
        }
        i += 1;
    }
    None
}

/// The part of `s[from..to]` left after trimming, as a range of `s`.
fn trim_in(s: &str, from: usize, to: usize) -> (r: (usize, usize))
    requires
        from <= to <= s@.len(),
    ensures
        from <= r.0 <= r.1 <= to,
        s@.subrange(r.0 as int, r.1 as int) == trimmed(s@.subrange(from as int, to as int)),
{
    let mut a: usize = from;
    while a < to && space(s.get_char(a))
        invariant
            from <= a <= to <= s@.len(),
            trim_start(s@.subrange(from as int, to as int)) == trim_start(s@.subrange(a as int, to as int)),
        decreases to - a,
    {
        assert(s@.subrange(a as int, to as int).drop_first() =~= s@.subrange(a + 1, to as int));
        a += 1;
    }
    let mut b: usize = to;
    while b > a && space(s.get_char(b - 1))
        invariant
            from <= a <= b <= to <= s@.len(),
            trimmed(s@.subrange(from as int, to as int)) == trim_end(s@.subrange(a as int, b as int)),
        decreases b - a,
    {
        assert(s@.subrange(a as int, b as int).drop_last() =~= s@.subrange(a as int, b - 1));
        b -= 1;
    }
    (a, b)
}

/// Splits a rule line into its directive, its rule and its attribute:
/// `keyword: ads @cn # note` gives `keyword`, `ads` and `cn`.
pub fn line_trimer<'a>(line: &'a str) -> (r: (Option<&'a str>, &'a str, Option<&'a str>))
    ensures
        r.0 matches Some(d) ==> line_directive(line@) == Some(d@),
        r.0 is None ==> line_directive(line@) is None,
        r.1@ == line_content(line@),
        r.2 matches Some(a) ==> line_attribute(line@) == Some(a@),
        r.2 is None ==> line_attribute(line@) is None,
{
    let ghost s = line@;
    let n = line.unicode_len();
    assert(s.subrange(0, n as int) =~= s);
    let end = match find_in(line, '#', 0, n) {
        Some(p) => {
            assert(s.subrange(0, p as int) =~= s.take(p as int));
            p
        },
        None => n,
    };
    assert(s.subrange(0, end as int) == before_char(s, '#'));
    let (la, lb) = trim_in(line, 0, end);
    let ghost l = line_body(s);
    assert(s.subrange(la as int, lb as int) == l);
    let colon = find_in(line, ':', la, lb);
    let identifier = match colon {
        Some(p) => {
            let (ia, ib) = trim_in(line, la, p);
            assert(s.subrange(la as int, p as int) =~= l.take(p - la));
            Some(line.substring_char(ia, ib))
        },
        None => None,
    };
    let (ra, rb) = match colon {
        Some(p) => {
            assert(find_char(l, ':') == Some(p - la));
            assert(s.subrange(p + 1, lb as int) =~= l.skip(p - la + 1));
            assert(after_char(l, ':') == l.skip(p - la + 1));
            trim_in(line, p + 1, lb)
        },
        None => {
            assert(find_char(l, ':') is None);
            assert(after_char(l, ':') == l);
            trim_in(line, la, lb)
        },
    };
    let ghost rest = line_rest(s);
    assert(s.subrange(ra as int, rb as int) == rest);
    let at = find_in(line, '@', ra, rb);
    let attribute = match at {
        Some(p) => {
            let (aa, ab) = trim_in(line, p + 1, rb);
            assert(s.subrange(p + 1, rb as int) =~= rest.skip(p - ra + 1));
            Some(line.substring_char(aa, ab))
        },
        None => None,
    };
    let (ca, cb) = match at {
        Some(p) => {
            assert(s.subrange(ra as int, p as int) =~= rest.take(p - ra));
            trim_in(line, ra, p)
        },
        None => trim_in(line, ra, rb),
    };
    (identifier, line.substring_char(ca, cb), attribute)
}

} // verus!

verus! {

/// What a rule line asks for, by its directive.
#[derive(Clone, Copy, Debug, PartialEq, Eq, Structural)]
pub enum Directive {
    /// Read another file and merge its rules.
    Include,
    /// An exact domain (`full`).
    Full,
    /// A domain and its subdomains (`domain`, or no directive).
    Suffix,
    /// A keyword (`keyword`).
    Keyword,
    /// A regular expression (`regexp`).
    Regex,
    /// Any other directive; the line is skipped.
    Unknown,
}

pub open spec fn directive_spec(identifier: Option<Seq<char>>) -> Directive {
    match identifier {
        None => Directive::Suffix,
        Some(d) => if d == "include"@ {
            Directive::Include
        } else if d == "domain"@ {
            Directive::Suffix
        } else if d == "keyword"@ {
            Directive::Keyword
        } else if d == "regexp"@ {
            Directive::Regex
        } else if d == "full"@ {
            Directive::Full
        } else {
            Directive::Unknown
        },
    }
}

fn same_chars(a: &str, b: &str) -> (r: bool)
    ensures
        r == (a@ == b@),
{
    let n = a.unicode_len();
    if n != b.unicode_len() {
        return false;
    }
    let mut i: usize = 0;
    while i < n
        invariant
            n == a@.len() == b@.len(),
            i <= n,
            a@.take(i as int) == b@.take(i as int),
        decreases n - i,
    {
        if a.get_char(i) != b.get_char(i) {
            return false;
        }
        assert(a@.take(i + 1) =~= a@.take(i as int).push(a@[i as int]));
        assert(b@.take(i + 1) =~= b@.take(i as int).push(b@[i as int]));
        i += 1;
    }
    assert(a@.take(n as int) =~= a@);
    assert(b@.take(n as int) =~= b@);
    true
}

/// The meaning of a line's directive.
pub fn directive_of(identifier: Option<&str>) -> (r: Directive)
    ensures
        r == directive_spec(
            match identifier {
                Some(d) => Some(d@),
                None => None,
            },
        ),
{
    match identifier {
        None => Directive::Suffix,
        Some(d) => if same_chars(d, "include") {
            Directive::Include
        } else if same_chars(d, "domain") {
            Directive::Suffix
        } else if same_chars(d, "keyword") {
            Directive::Keyword
        } else if same_chars(d, "regexp") {
            Directive::Regex
        } else if same_chars(d, "full") {
            Directive::Full
        } else {
            Directive::Unknown
        },
    }
}

} // verus!

verus! {

/// The kind of rule that a directive adds, if it adds one.
pub open spec fn kind_of(d: Directive) -> Option<RuleKind> {
    match d {
        Directive::Full => Some(RuleKind::Full),
        Directive::Suffix => Some(RuleKind::Suffix),
        Directive::Keyword => Some(RuleKind::Keyword),
        Directive::Regex => Some(RuleKind::Regex),
        _ => None,
    }
}

/// What to do with one line of a rule file.
pub enum LineAction {
    /// Nothing: the line holds no rule.
    Skip,
    /// Merge the rules of the named file.
    Include(String),
    /// Skip a line with this unknown directive.
    Unknown(String),
    /// Add a rule to the default collection and, with an attribute, to the
    /// collection of that attribute.
    Add(RuleKind, String, Option<String>),
}

pub open spec fn opt_view(o: Option<Seq<char>>, r: Option<String>) -> bool {
    match r {
        Some(a) => o == Some(a@),
        None => o is None,
    }
}

/// Reads one line of a rule file.
pub fn classify_line(line: &str) -> (r: LineAction)
    ensures
        line_content(line@).len() == 0 <==> r is Skip,
        line_content(line@).len() > 0 ==> match directive_spec(line_directive(line@)) {
            Directive::Include => r matches LineAction::Include(p) && p@ == line_content(line@),
            Directive::Unknown => r matches LineAction::Unknown(d) && line_directive(line@) == Some(d@),
            d => r matches LineAction::Add(k, c, a) && kind_of(d) == Some(k) && c@ == line_content(line@)
                && opt_view(line_attribute(line@), a),
        },
{
    let (identifier, content, attribute) = line_trimer(line);
    if content.unicode_len() == 0 {
        return LineAction::Skip;
    }
    let d = directive_of(identifier);
    let kind = match d {
        Directive::Include => {
            return LineAction::Include(content.to_owned());
        },
        Directive::Unknown => {
            let name = match identifier {
                Some(i) => i.to_owned(),
                None => String::new(),
            };
            return LineAction::Unknown(name);
        },
        Directive::Full => RuleKind::Full,
        Directive::Suffix => RuleKind::Suffix,
        Directive::Keyword => RuleKind::Keyword,
        Directive::Regex => RuleKind::Regex,
    };
    let attr = match attribute {
        Some(a) => Some(a.to_owned()),
        None => None,
    };
    LineAction::Add(kind, content.to_owned(), attr)
}

} // verus!
