use vstd::prelude::*;

verus! {

#[verifier::external_type_specification]
#[verifier::external_body]
pub struct ExRegex(fancy_regex::Regex);

/// Whether `p` is a pattern that the regex engine accepts.
pub uninterp spec fn pattern_compiles(p: Seq<char>) -> bool;

/// What replacing every match of pattern `p` in `t` by the template `rep`
/// gives, or `None` where the engine gives up (its backtracking limit).
pub uninterp spec fn regex_replace_all(p: Seq<char>, t: Seq<char>, rep: Seq<char>) -> Option<
    Seq<char>,
>;

/// Relies on `fancy_regex::Regex::new`: whether a pattern compiles depends on
/// the pattern alone.
#[verifier::external_body]
fn compile(p: &str) -> (r: Option<fancy_regex::Regex>)
    ensures
        r is Some <==> pattern_compiles(p@),
{
    fancy_regex::Regex::new(p).ok()
}

/// A compiled pattern together with its source text.  The only way to build
/// one is `RegexWrapper::new`, so `regex` is always `pattern` compiled.
#[derive(Debug)]
pub struct RegexWrapper {
    pattern: String,
    regex: fancy_regex::Regex,
}

/// Relies on `fancy_regex::Regex::try_replacen` with no limit: the result of
/// replacing all matches of `re`'s pattern in `text` by the template `rep`
/// (`$1`, `${name}` expand to groups), or its error.
#[verifier::external_body]
fn replace_all(re: &RegexWrapper, text: &str, rep: &str) -> (r: Option<String>)
    ensures
        regex_replace_all(re.pattern@, text@, rep@) == match r {
            Some(s) => Some(s@),
            None => None::<Seq<char>>,
        },
{
    re.regex.try_replacen(text, 0, rep).ok().map(|c| c.into_owned())
}

impl RegexWrapper {
    /// The pattern's source text.
    pub closed spec fn pattern_view(&self) -> Seq<char> {
        self.pattern@
    }

    pub open spec fn wf(&self) -> bool {
        pattern_compiles(self.pattern_view())
    }

    /// Compiles `pattern`; `None` exactly when the engine refuses it.
    pub fn new(pattern: &str) -> (r: Option<RegexWrapper>)
        ensures
            r is Some <==> pattern_compiles(pattern@),
            r matches Some(w) ==> w.pattern_view() == pattern@ && w.wf(),
    {
        match compile(pattern) {
            Some(regex) => Some(RegexWrapper { pattern: String::from_str(pattern), regex }),
            None => None,
        }
    }

    /// The pattern's source text.
    pub fn as_str(&self) -> (r: &str)
        ensures
            r@ == self.pattern_view(),
    {
        self.pattern.as_str()
    }

    /// Two wrappers are equal when their source texts are.
    pub fn eq(&self, other: &RegexWrapper) -> (r: bool)
        ensures
            r == (self.pattern_view() == other.pattern_view()),
    {
        self.pattern == other.pattern
    }
}

/// One rewrite rule: every match of `find` is replaced by the template `replace`.
#[derive(Debug)]
pub struct RewriteRules {
    pub find: RegexWrapper,
    pub replace: String,
}

impl RewriteRules {
    /// The rule as (pattern, template).
    pub open spec fn view_pair(&self) -> (Seq<char>, Seq<char>) {
        (self.find.pattern_view(), self.replace@)
    }
}

/// The rules as (pattern, template) pairs.
pub open spec fn rules_view(rules: Seq<RewriteRules>) -> Seq<(Seq<char>, Seq<char>)> {
    rules.map_values(|r: RewriteRules| r.view_pair())
}

/// Every rule compiled from its own pattern.
pub open spec fn rules_wf(rules: Seq<RewriteRules>) -> bool {
    forall|i: int| 0 <= i < rules.len() ==> (#[trigger] rules[i]).find.wf()
}

/// `t` after each rule in turn, each one working on what the previous gave;
/// `None` once the engine fails on one of them.
pub open spec fn rules_applied(t: Seq<char>, rules: Seq<(Seq<char>, Seq<char>)>) -> Option<
    Seq<char>,
>
    decreases rules.len(),
{
    if rules.len() == 0 {
        Some(t)
    } else {
        match rules_applied(t, rules.drop_last()) {
            Some(t1) => regex_replace_all(rules.last().0, t1, rules.last().1),
            None => None,
        }
    }
}

/// Applying a list of rules is applying its first part, then the rest to what
/// that gave: rules compose in order and are never batched.
pub proof fn lemma_rules_compose(
    t: Seq<char>,
    a: Seq<(Seq<char>, Seq<char>)>,
    b: Seq<(Seq<char>, Seq<char>)>,
)
    ensures
        rules_applied(t, a + b) == match rules_applied(t, a) {
            Some(t1) => rules_applied(t1, b),
            None => None,
        },
    decreases b.len(),
{
    if b.len() == 0 {
        assert(a + b =~= a);
    } else {
        assert((a + b).drop_last() =~= a + b.drop_last());
        lemma_rules_compose(t, a, b.drop_last());
        match rules_applied(t, a) {
            Some(t1) => {},
            None => {},
        }
    }
}

/// Applies the rules to `text` in list order, each to the output of the one
/// before; `None` when the engine fails on one of them, with no partial text.
pub fn apply_rules(text: String, rules: &Vec<RewriteRules>) -> (r: Option<String>)
    ensures
        match r {
            Some(s) => rules_applied(text@, rules_view(rules@)) == Some(s@),
            None => rules_applied(text@, rules_view(rules@)) is None,
        },
{
    let mut cur = text;
    let mut i: usize = 0;
    assert(rules_view(rules@).take(0) =~= Seq::<(Seq<char>, Seq<char>)>::empty());
    while i < rules.len()
        invariant
            i <= rules@.len(),
            rules_applied(text@, rules_view(rules@).take(i as int)) == Some(cur@),
        decreases rules@.len() - i,
    {
        let rule = &rules[i];
        assert(rules_view(rules@).take(i + 1).drop_last() =~= rules_view(rules@).take(i as int));
        match replace_all(&rule.find, cur.as_str(), rule.replace.as_str()) {
            Some(next) => {
                cur = next;
            },
            None => {
                proof {
                    lemma_rules_compose(
                        text@,
                        rules_view(rules@).take(i + 1),
                        rules_view(rules@).skip(i + 1),
                    );
                    assert(rules_view(rules@).take(i + 1) + rules_view(rules@).skip(i + 1)
                        =~= rules_view(rules@));
                }
                return None;
            },
        }
        i = i + 1;
    }
    assert(rules_view(rules@).take(i as int) =~= rules_view(rules@));
    Some(cur)
}

} // verus!
