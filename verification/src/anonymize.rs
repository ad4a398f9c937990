//! Anonymizing report text: machine-specific paths (input file, target directory,
//! working directory, home) are replaced by placeholders such as `<HOME>`.
use crate::parse::{paths_equal, same_path};
use crate::text::{byte_len, chars_eq, chars_of, join, slice_chars, string_of, utf8_len};
use vstd::prelude::*;

verus! {

/// A replacement rule: the text to search for and its placeholder.
pub type Rule = (Seq<char>, Seq<char>);

/// `s` with every non-overlapping occurrence of `pat`, scanned from the left, replaced by
/// `to` (as `str::replace` does for a non-empty pattern); an empty pattern changes nothing.
pub open spec fn replace_all(s: Seq<char>, pat: Seq<char>, to: Seq<char>) -> Seq<char>
    decreases s.len(),
{
    if s.len() == 0 {
        Seq::empty()
    } else if 0 < pat.len() <= s.len() && s.take(pat.len() as int) == pat {
        to + replace_all(s.skip(pat.len() as int), pat, to)
    } else {
        seq![s[0]] + replace_all(s.drop_first(), pat, to)
    }
}

/// `text` after the rules, applied one after the other in order.
pub open spec fn anonymized(text: Seq<char>, rules: Seq<Rule>) -> Seq<char>
    decreases rules.len(),
{
    if rules.len() == 0 {
        text
    } else {
        let r = rules.last();
        replace_all(anonymized(text, rules.drop_last()), r.0, r.1)
    }
}

/// The rules whose search text takes more than three bytes: shorter ones (such as `/`,
/// `\` or `C:\`) would anonymize far too much.
pub open spec fn long_enough(rs: Seq<Rule>) -> Seq<Rule>
    decreases rs.len(),
{
    if rs.len() == 0 {
        Seq::empty()
    } else if utf8_len(rs.last().0) > 3 {
        long_enough(rs.drop_last()).push(rs.last())
    } else {
        long_enough(rs.drop_last())
    }
}

/// `x` put into `sorted` after every rule whose search text is at least as long in bytes.
pub open spec fn insert_by_len(sorted: Seq<Rule>, x: Rule) -> Seq<Rule>
    decreases sorted.len(),
{
    if sorted.len() == 0 {
        seq![x]
    } else if utf8_len(sorted[0].0) < utf8_len(x.0) {
        seq![x] + sorted
    } else {
        seq![sorted[0]] + insert_by_len(sorted.drop_first(), x)
    }
}

/// The rules sorted by the byte length of their search text, longest first; rules of the
/// same length keep their order (a stable sort).
pub open spec fn sort_by_len(rs: Seq<Rule>) -> Seq<Rule>
    decreases rs.len(),
{
    if rs.len() == 0 {
        Seq::empty()
    } else {
        insert_by_len(sort_by_len(rs.drop_last()), rs.last())
    }
}

/// `s` with every backslash turned into a forward slash.
pub open spec fn forward_slashes(s: Seq<char>) -> Seq<char> {
    s.map_values(|c: char| if c == '\\' { '/' } else { c })
}

/// `ps` with `r` added at the end unless it is there already.
pub open spec fn push_new(ps: Seq<Rule>, r: Rule) -> Seq<Rule> {
    if ps.contains(r) {
        ps
    } else {
        ps.push(r)
    }
}

/// `ps` with the rule added, and then its variant with forward slashes when that differs.
pub open spec fn add_rule(ps: Seq<Rule>, r: Rule) -> Seq<Rule> {
    let p1 = push_new(ps, r);
    let f = forward_slashes(r.0);
    if f != r.0 {
        push_new(p1, (f, r.1))
    } else {
        p1
    }
}

/// The rules, each followed by its forward-slash variant, without repeats.
pub open spec fn with_forward_variants(rs: Seq<Rule>) -> Seq<Rule>
    decreases rs.len(),
{
    if rs.len() == 0 {
        Seq::empty()
    } else {
        add_rule(with_forward_variants(rs.drop_last()), rs.last())
    }
}

/// The rules that an `Anonymizer` made from `candidates` applies, in order.
pub open spec fn prepare_rules(candidates: Seq<Rule>) -> Seq<Rule> {
    sort_by_len(with_forward_variants(sort_by_len(long_enough(candidates))))
}

/// Pairs of strings seen as rules.
pub open spec fn candidate_views(v: Seq<(String, String)>) -> Seq<Rule> {
    Seq::new(v.len(), |i: int| (v[i].0@, v[i].1@))
}

/// Pairs of character vectors seen as rules.
pub open spec fn rule_views(v: Seq<(Vec<char>, Vec<char>)>) -> Seq<Rule> {
    Seq::new(v.len(), |i: int| (v[i].0@, v[i].1@))
}

/// Replaces machine-specific paths in text with placeholders.
#[derive(Clone)]
pub struct Anonymizer {
    replacements: Vec<(Vec<char>, Vec<char>)>,
}

/// Whether `pat` occurs in `s` at position `i`.
fn occurs_at(s: &[char], pat: &[char], i: usize) -> (r: bool)
    requires
        i <= s@.len(),
    ensures
        r == (i + pat@.len() <= s@.len() && s@.subrange(i as int, i + pat@.len()) == pat@),
{
    if pat.len() > s.len() - i {
        return false;
    }
    let mut k: usize = 0;
    while k < pat.len()
        invariant
            k <= pat@.len(),
            i + pat@.len() <= s@.len(),
            s@.len() == s.len(),
            forall|j: int| 0 <= j < k ==> s@[i + j] == pat@[j],
        decreases pat.len() - k,
    {
        if s[i + k] != pat[k] {
            proof {
                assert(s@.subrange(i as int, i + pat@.len())[k as int] != pat@[k as int]);
            }
            return false;
        }
        k += 1;
    }
    proof {
        assert(s@.subrange(i as int, i + pat@.len()) =~= pat@);
    }
    true
}

/// `s` with every occurrence of `pat` replaced by `to` (see `replace_all`).
fn replace_all_chars(s: &[char], pat: &[char], to: &[char]) -> (r: Vec<char>)
    ensures
        r@ == replace_all(s@, pat@, to@),
{
    let mut out: Vec<char> = Vec::new();
    let mut i: usize = 0;
    proof {
        assert(s@.skip(0) =~= s@);
    }
    while i < s.len()
        invariant
            i <= s@.len(),
            out@ + replace_all(s@.skip(i as int), pat@, to@) == replace_all(s@, pat@, to@),
        decreases s.len() - i,
    {
        let ghost rest = s@.skip(i as int);
        let ghost before = out@;
        if pat.len() > 0 && occurs_at(s, pat, i) {
            proof {
                assert(rest.take(pat@.len() as int) =~= s@.subrange(i as int, i + pat@.len()));
                assert(rest.skip(pat@.len() as int) =~= s@.skip(i + pat@.len()));
            }
            let mut k: usize = 0;
            while k < to.len()
                invariant
                    k <= to@.len(),
                    out@ == before + to@.take(k as int),
                decreases to.len() - k,
            {
                out.push(to[k]);
                k += 1;
                proof {
                    assert(out@ =~= before + to@.take(k as int));
                }
            }
            proof {
                assert(to@.take(to@.len() as int) =~= to@);
                assert(out@ + replace_all(s@.skip(i + pat@.len()), pat@, to@) =~= before + replace_all(rest, pat@, to@));
            }
            i = i + pat.len();
        } else {
            proof {
                if 0 < pat@.len() <= rest.len() {
                    assert(rest.take(pat@.len() as int) =~= s@.subrange(i as int, i + pat@.len()));
                }
                assert(rest.drop_first() =~= s@.skip(i + 1));
            }
            out.push(s[i]);
            proof {
                assert(out@ + replace_all(s@.skip(i + 1), pat@, to@) =~= before + replace_all(rest, pat@, to@));
            }
            i = i + 1;
        }
    }
    proof {
        assert(s@.skip(i as int) =~= Seq::<char>::empty());
        assert(out@ + Seq::<char>::empty() =~= out@);
    }
    out
}


/// A copy of a rule.
fn copy_rule(r: &(Vec<char>, Vec<char>)) -> (c: (Vec<char>, Vec<char>))
    ensures
        c.0@ == r.0@,
        c.1@ == r.1@,
{
    (slice_chars(&r.0, 0, r.0.len()), slice_chars(&r.1, 0, r.1.len()))
}

/// The candidates whose search text takes more than three bytes (see `long_enough`).
fn keep_long(cands: &Vec<(String, String)>) -> (r: Vec<(Vec<char>, Vec<char>)>)
    ensures
        rule_views(r@) == long_enough(candidate_views(cands@)),
{
    let ghost cv = candidate_views(cands@);
    let mut out: Vec<(Vec<char>, Vec<char>)> = Vec::new();
    let mut i: usize = 0;
    proof {
        assert(rule_views(out@) =~= long_enough(cv.take(0)));
    }
    while i < cands.len()
        invariant
            i <= cands@.len(),
            cv == candidate_views(cands@),
            rule_views(out@) == long_enough(cv.take(i as int)),
        decreases cands.len() - i,
    {
        proof {
            assert(cv.take(i + 1).drop_last() =~= cv.take(i as int));
            assert(cv.take(i + 1).last() == (cands@[i as int].0@, cands@[i as int].1@));
        }
        let search = chars_of(cands[i].0.as_str());
        let replace = chars_of(cands[i].1.as_str());
        if byte_len(&search) > 3 {
            let ghost before = rule_views(out@);
            out.push((search, replace));
            proof {
                assert(rule_views(out@) =~= before.push((search@, replace@)));
            }
        }
        i += 1;
    }
    proof {
        assert(cv.take(cands@.len() as int) =~= cv);
    }
    out
}

proof fn lemma_insert_by_len_at(sorted: Seq<Rule>, x: Rule, k: int)
    requires
        0 <= k <= sorted.len(),
        forall|j: int| 0 <= j < k ==> utf8_len(#[trigger] sorted[j].0) >= utf8_len(x.0),
        k < sorted.len() ==> utf8_len(sorted[k].0) < utf8_len(x.0),
    ensures
        insert_by_len(sorted, x) == sorted.insert(k, x),
    decreases k,
{
    if k == 0 {
        if sorted.len() == 0 {
            assert(sorted.insert(0, x) =~= seq![x]);
        } else {
            assert(sorted.insert(0, x) =~= seq![x] + sorted);
        }
    } else {
        let rest = sorted.drop_first();
        assert forall|j: int| 0 <= j < k - 1 implies utf8_len(#[trigger] rest[j].0) >= utf8_len(x.0) by {
            assert(rest[j] == sorted[j + 1]);
        }
        if k - 1 < rest.len() {
            assert(rest[k - 1] == sorted[k]);
        }
        lemma_insert_by_len_at(rest, x, k - 1);
        assert(sorted.insert(k, x) =~= seq![sorted[0]] + rest.insert(k - 1, x));
    }
}

/// Puts `x` after every rule of `out` whose search text is at least as long in bytes.
fn insert_rule(out: &mut Vec<(Vec<char>, Vec<char>)>, x: (Vec<char>, Vec<char>))
    ensures
        rule_views(final(out)@) == insert_by_len(rule_views(old(out)@), (x.0@, x.1@)),
{
    let ghost sv = rule_views(out@);
    let key = byte_len(&x.0);
    let mut k: usize = 0;
    while k < out.len() && byte_len(&out[k].0) >= key
        invariant
            k <= out@.len(),
            sv == rule_views(out@),
            key == utf8_len(x.0@),
            forall|j: int| 0 <= j < k ==> utf8_len(#[trigger] sv[j].0) >= utf8_len(x.0@),
        decreases out.len() - k,
    {
        k += 1;
    }
    proof {
        lemma_insert_by_len_at(sv, (x.0@, x.1@), k as int);
    }
    let ghost xv = (x.0@, x.1@);
    out.insert(k, x);
    proof {
        assert(rule_views(out@) =~= sv.insert(k as int, xv));
    }
}

/// The rules sorted by the byte length of their search text, longest first, stably.
fn sort_rules(rs: Vec<(Vec<char>, Vec<char>)>) -> (r: Vec<(Vec<char>, Vec<char>)>)
    ensures
        rule_views(r@) == sort_by_len(rule_views(rs@)),
{
    let ghost rv = rule_views(rs@);
    let mut out: Vec<(Vec<char>, Vec<char>)> = Vec::new();
    let mut i: usize = 0;
    proof {
        assert(rule_views(out@) =~= sort_by_len(rv.take(0)));
    }
    while i < rs.len()
        invariant
            i <= rs@.len(),
            rv == rule_views(rs@),
            rule_views(out@) == sort_by_len(rv.take(i as int)),
        decreases rs.len() - i,
    {
        proof {
            assert(rv.take(i + 1).drop_last() =~= rv.take(i as int));
        }
        let x = copy_rule(&rs[i]);
        insert_rule(&mut out, x);
        i += 1;
    }
    proof {
        assert(rv.take(rs@.len() as int) =~= rv);
    }
    out
}

/// Whether `ps` holds a rule equal to `r`.
fn contains_rule(ps: &Vec<(Vec<char>, Vec<char>)>, r: &(Vec<char>, Vec<char>)) -> (b: bool)
    ensures
        b == rule_views(ps@).contains((r.0@, r.1@)),
{
    let ghost pv = rule_views(ps@);
    let mut i: usize = 0;
    while i < ps.len()
        invariant
            i <= ps@.len(),
            pv == rule_views(ps@),
            forall|j: int| 0 <= j < i ==> #[trigger] pv[j] != (r.0@, r.1@),
        decreases ps.len() - i,
    {
        if chars_eq(&ps[i].0, &r.0) && chars_eq(&ps[i].1, &r.1) {
            proof {
                assert(pv[i as int] == (r.0@, r.1@));
            }
            return true;
        }
        i += 1;
    }
    false
}

/// `s` with backslashes turned into forward slashes.
fn forward_slash_chars(s: &[char]) -> (r: Vec<char>)
    ensures
        r@ == forward_slashes(s@),
{
    let mut out: Vec<char> = Vec::new();
    let mut i: usize = 0;
    while i < s.len()
        invariant
            i <= s@.len(),
            out@ == forward_slashes(s@).take(i as int),
        decreases s.len() - i,
    {
        let c = s[i];
        out.push(if c == '\\' { '/' } else { c });
        i += 1;
        proof {
            assert(out@ =~= forward_slashes(s@).take(i as int));
        }
    }
    proof {
        assert(forward_slashes(s@).take(s@.len() as int) =~= forward_slashes(s@));
    }
    out
}

/// Adds `r` to `ps` unless it is there already.
fn push_new_rule(ps: &mut Vec<(Vec<char>, Vec<char>)>, r: (Vec<char>, Vec<char>))
    ensures
        rule_views(final(ps)@) == push_new(rule_views(old(ps)@), (r.0@, r.1@)),
{
    if !contains_rule(ps, &r) {
        let ghost before = rule_views(ps@);
        let ghost rv = (r.0@, r.1@);
        ps.push(r);
        proof {
            assert(rule_views(ps@) =~= before.push(rv));
        }
    }
}

/// The rules, each followed by its forward-slash variant, without repeats.
fn add_forward_variants(rs: &Vec<(Vec<char>, Vec<char>)>) -> (r: Vec<(Vec<char>, Vec<char>)>)
    ensures
        rule_views(r@) == with_forward_variants(rule_views(rs@)),
{
    let ghost rv = rule_views(rs@);
    let mut out: Vec<(Vec<char>, Vec<char>)> = Vec::new();
    let mut i: usize = 0;
    proof {
        assert(rule_views(out@) =~= with_forward_variants(rv.take(0)));
    }
    while i < rs.len()
        invariant
            i <= rs@.len(),
            rv == rule_views(rs@),
            rule_views(out@) == with_forward_variants(rv.take(i as int)),
        decreases rs.len() - i,
    {
        proof {
            assert(rv.take(i + 1).drop_last() =~= rv.take(i as int));
            assert(rv.take(i + 1).last() == (rs@[i as int].0@, rs@[i as int].1@));
        }
        let rule = copy_rule(&rs[i]);
        let forward = forward_slash_chars(&rule.0);
        let replace = slice_chars(&rule.1, 0, rule.1.len());
        let differs = !chars_eq(&forward, &rule.0);
        let ghost prev = rule_views(out@);
        let ghost x: Rule = (rule.0@, rule.1@);
        push_new_rule(&mut out, rule);
        let ghost p1 = rule_views(out@);
        let ghost fv = forward@;
        let ghost rpv = replace@;
        assert(fv == forward_slashes(x.0));
        assert(rpv == x.1);
        assert(differs == (fv != x.0));
        if differs {
            push_new_rule(&mut out, (forward, replace));
            assert(rule_views(out@) == push_new(p1, (fv, rpv)));
        }
        proof {
            assert(p1 == push_new(prev, x));
            assert(rule_views(out@) == add_rule(prev, x));
        }
        i += 1;
    }
    proof {
        assert(rv.take(rs@.len() as int) =~= rv);
    }
    out
}

impl Anonymizer {
    /// The rules this anonymizer applies, in order.
    pub closed spec fn rules(&self) -> Seq<Rule> {
        rule_views(self.replacements@)
    }

    /// Creates an anonymizer from candidate rules (a machine-specific path and its
    /// placeholder): rules whose path takes three bytes or fewer are dropped; the rest are
    /// sorted by path length, longest first, so that the most specific paths are replaced
    /// first; each is followed by its variant with forward slashes, repeats left out; and
    /// the whole is sorted by length again.
    pub fn new(candidates: Vec<(String, String)>) -> (r: Anonymizer)
        ensures
            r.rules() == prepare_rules(candidate_views(candidates@)),
    {
        let long = keep_long(&candidates);
        let sorted = sort_rules(long);
        let processed = add_forward_variants(&sorted);
        let replacements = sort_rules(processed);
        Anonymizer { replacements }
    }

    /// Replaces, in order, every occurrence of each rule's search text by its placeholder.
    pub fn anonymize(&self, text: &str) -> (r: String)
        ensures
            r@ == anonymized(text@, self.rules()),
    {
        let mut cur = chars_of(text);
        let mut i: usize = 0;
        proof {
            assert(self.rules().take(0) =~= Seq::<Rule>::empty());
        }
        while i < self.replacements.len()
            invariant
                i <= self.replacements@.len(),
                cur@ == anonymized(text@, self.rules().take(i as int)),
            decreases self.replacements.len() - i,
        {
            proof {
                assert(self.rules().take(i + 1).drop_last() =~= self.rules().take(i as int));
            }
            let rule = &self.replacements[i];
            cur = replace_all_chars(&cur, &rule.0, &rule.1);
            i += 1;
        }
        proof {
            assert(self.rules().take(i as int) =~= self.rules());
        }
        string_of(&cur)
    }
}

/// The word that stands for one command-line argument in a report: the input-file or
/// target-directory placeholder when its canonical form is that path, else the argument.
pub open spec fn arg_word(arg: Seq<char>, canonical: Seq<char>, input: Option<Seq<char>>, target: Option<Seq<char>>) -> Seq<char> {
    if input matches Some(p) && same_path(p, canonical) {
        "<INPUT_FILE>"@
    } else if target matches Some(t) && same_path(t, canonical) {
        "<TARGET_DIR>"@
    } else {
        arg
    }
}

/// The words of an anonymized command line: the program, then a word for each argument
/// (given with its canonical form).
pub open spec fn command_words(
    program: Seq<char>,
    args: Seq<(Seq<char>, Seq<char>)>,
    input: Option<Seq<char>>,
    target: Option<Seq<char>>,
) -> Seq<Seq<char>> {
    seq![program] + Seq::new(args.len(), |i: int| arg_word(args[i].0, args[i].1, input, target))
}

/// An optional string slice seen as characters.
pub open spec fn opt_view(o: Option<&str>) -> Option<Seq<char>> {
    match o {
        Some(s) => Some(s@),
        None => None,
    }
}

/// The command line of a run with the input file and the target directory replaced by
/// placeholders, so that it can be shared in a report: `program`, then each argument
/// (given with its canonical path) as `arg_word` says, joined by spaces.
pub fn anonymize_command_args(program: &str, args: &Vec<(String, String)>, input: Option<&str>, target: Option<&str>) -> (r: String)
    ensures
        r@ == join(command_words(program@, candidate_views(args@), opt_view(input), opt_view(target)), seq![' ']),
{
    let ghost words = command_words(program@, candidate_views(args@), opt_view(input), opt_view(target));
    let mut out = String::from_str(program);
    proof {
        assert(words.take(1).drop_last() =~= Seq::<Seq<char>>::empty());
        assert(out@ =~= join(words.take(1), seq![' ']));
    }
    let mut i: usize = 0;
    while i < args.len()
        invariant
            i <= args@.len(),
            words == command_words(program@, candidate_views(args@), opt_view(input), opt_view(target)),
            words.len() == args@.len() + 1,
            out@ == join(words.take(i + 1), seq![' ']),
        decreases args.len() - i,
    {
        let arg = &args[i].0;
        let canonical = &args[i].1;
        let is_input = match input {
            Some(p) => paths_equal(p, canonical.as_str()),
            None => false,
        };
        let is_target = match target {
            Some(t) => paths_equal(t, canonical.as_str()),
            None => false,
        };
        out.append(" ");
        if is_input {
            out.append("<INPUT_FILE>");
        } else if is_target {
            out.append("<TARGET_DIR>");
        } else {
            out.append(arg.as_str());
        }
        proof {
            reveal_strlit(" ");
            assert(words[i + 1] == arg_word(args@[i as int].0@, args@[i as int].1@, opt_view(input), opt_view(target)));
            assert(words.take(i + 2).drop_last() =~= words.take(i + 1));
        }
        i += 1;
    }
    proof {
        assert(words.take(args@.len() as int + 1) =~= words);
    }
    out
}

} // verus!
