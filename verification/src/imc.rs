//! The engine that proves obligations by interpolation.
//!
//! Starting from what is known to be reachable, it asks whether one more
//! transition can reach an error. If not, the interpolant describes the states
//! after that transition; once these are known to be reachable already, no error
//! is. Running the solver is the caller's.

use vstd::prelude::*;
use vstd::string::*;

use crate::body_analysis;
use crate::body_analysis::body_uses_havoced_ops;
use crate::engine;
use crate::engine::{
    bounded_obligations, Direction, EngineId, ObligationRef, ObligationRefV, Progress, ProofKind,
    Status,
};
use crate::interpolation;
use crate::interpolation::{
    encode_body_lia, InterpolationResult, InterpolationSolver, InterpolationV, LiaV,
};
use crate::ir::{Body, ObligationId, Stmt};
use crate::program::Program;
use crate::scan;
use crate::scan::{cut_up, is_digit_char, is_word_char, to_text, trimmed, Cut};
use crate::smt_text::LiaTheory;
use crate::text;
use crate::text::{chars_of, contains, make_sexp1, make_sexp2, numbered, same, starts_with};

verus! {

/// After this many interpolants the engine gives up.
pub const MAX_ITERATIONS: u32 = 50;

/// The length of the word that the text begins with.
pub open spec fn word_len(s: Seq<char>) -> nat
    decreases s.len(),
{
    if s.len() > 0 && scan::word_char(s[0]) {
        1 + word_len(s.skip(1))
    } else {
        0
    }
}

proof fn lemma_word_len(s: Seq<char>)
    ensures
        word_len(s) <= s.len(),
        s.len() > 0 && scan::word_char(s[0]) ==> word_len(s) > 0,
        forall|i: int| 0 <= i < word_len(s) ==> scan::word_char(#[trigger] s[i]),
        word_len(s) < s.len() ==> !scan::word_char(s[word_len(s) as int]),
    decreases s.len(),
{
    if s.len() > 0 && scan::word_char(s[0]) {
        lemma_word_len(s.skip(1));
        assert forall|i: int| 0 <= i < word_len(s) implies scan::word_char(#[trigger] s[i]) by {
            if i > 0 {
                assert(s.skip(1)[i - 1] == s[i]);
            }
        }
    }
}

/// The text with each word replaced. A word is a run of letters, digits and
/// underscores that cannot be made longer.
pub open spec fn replaced(s: Seq<char>, f: spec_fn(Seq<char>) -> Seq<char>) -> Seq<char>
    decreases s.len(),
{
    if s.len() == 0 {
        Seq::empty()
    } else if word_len(s) == 0 || word_len(s) > s.len() {
        seq![s[0]] + replaced(s.skip(1), f)
    } else {
        f(s.take(word_len(s) as int)) + replaced(s.skip(word_len(s) as int), f)
    }
}

/// Put one word in place of another.
pub open spec fn swap(from: Seq<char>, to: Seq<char>) -> spec_fn(Seq<char>) -> Seq<char> {
    |w: Seq<char>|
        if w == from {
            to
        } else {
            w
        }
}

/// The text with the word `from` renamed.
pub open spec fn renamed(s: Seq<char>, from: Seq<char>, to: Seq<char>) -> Seq<char> {
    replaced(s, swap(from, to))
}

/// Is the text a single word?
pub open spec fn is_word(s: Seq<char>) -> bool {
    s.len() > 0 && word_len(s) == s.len()
}

/// The text `from` is at the position, and neither the character before nor the one after
/// it is part of a word.
pub open spec fn stands_at(s: Seq<char>, from: Seq<char>, i: int) -> bool {
    let end = i + from.len();
    &&& 0 <= i && end <= s.len()
    &&& s.subrange(i, end) == from
    &&& i == 0 || !scan::word_char(s[i - 1])
    &&& end == s.len() || !scan::word_char(s[end])
}

/// The rest of the text with `from` replaced wherever it stands apart from words. What
/// was replaced is not looked at again.
pub open spec fn renamed_from(s: Seq<char>, from: Seq<char>, to: Seq<char>, i: int) -> Seq<char>
    decreases s.len() - i,
{
    if i < 0 || i >= s.len() {
        Seq::empty()
    } else if from.len() > 0 && stands_at(s, from, i) {
        to + renamed_from(s, from, to, i + from.len())
    } else {
        seq![s[i]] + renamed_from(s, from, to, i + 1)
    }
}

/// Inside a word that is not `from` from its start, nothing is replaced.
proof fn lemma_inside_word(s: Seq<char>, from: Seq<char>, to: Seq<char>, i: int, end: int)
    requires
        0 < i <= end <= s.len(),
        forall|k: int| i - 1 <= k < end ==> scan::word_char(#[trigger] s[k]),
    ensures
        renamed_from(s, from, to, i) == s.subrange(i, end) + renamed_from(s, from, to, end),
    decreases end - i,
{
    if i < end {
        assert(scan::word_char(s[i - 1]));
        lemma_inside_word(s, from, to, i + 1, end);
        assert(seq![s[i]] + (s.subrange(i + 1, end) + renamed_from(s, from, to, end)) =~= s.subrange(
            i,
            end,
        ) + renamed_from(s, from, to, end));
    } else {
        assert(s.subrange(i, end) + renamed_from(s, from, to, end) =~= renamed_from(s, from, to, i));
    }
}

/// The characters that a word consists of, and the one after it.
proof fn lemma_word_extent(s: Seq<char>)
    ensures
        word_len(s) <= s.len(),
        forall|k: int| 0 <= k < word_len(s) ==> scan::word_char(#[trigger] s[k]),
        word_len(s) < s.len() ==> !scan::word_char(s[word_len(s) as int]),
    decreases s.len(),
{
    lemma_word_len(s);
    if s.len() > 0 && scan::word_char(s[0]) {
        lemma_word_extent(s.skip(1));
        assert forall|k: int| 0 <= k < word_len(s) implies scan::word_char(#[trigger] s[k]) by {
            if k > 0 {
                assert(s[k] == s.skip(1)[k - 1]);
            }
        }
    }
}

proof fn lemma_renamed_from(s: Seq<char>, from: Seq<char>, to: Seq<char>, i: int)
    requires
        is_word(from),
        0 <= i <= s.len(),
        0 < i < s.len() ==> !scan::word_char(s[i - 1]) || !scan::word_char(s[i]),
    ensures
        renamed_from(s, from, to, i) == renamed(s.skip(i), from, to),
    decreases s.len() - i,
{
    let rest = s.skip(i);
    let f = swap(from, to);
    if i < s.len() {
        lemma_word_extent(rest);
        lemma_word_extent(from);
        let n = word_len(rest) as int;
        assert(rest[0] == s[i]);
        if n == 0 {
            assert(scan::word_char(from[0]));
            assert(!stands_at(s, from, i)) by {
                if stands_at(s, from, i) {
                    assert(s.subrange(i, i + from.len())[0] == s[i]);
                }
            }
            lemma_renamed_from(s, from, to, i + 1);
            assert(rest.skip(1) =~= s.skip(i + 1));
        } else {
            let w = rest.take(n);
            let end = i + n;
            assert forall|k: int| i <= k < end implies scan::word_char(#[trigger] s[k]) by {
                assert(s[k] == rest[k - i]);
            }
            if end < s.len() {
                assert(s[end] == rest[n]);
            }
            assert(rest.skip(n) =~= s.skip(end));
            assert(w =~= s.subrange(i, end));
            assert(stands_at(s, from, i) <==> w == from) by {
                if stands_at(s, from, i) {
                    let m = from.len() as int;
                    let part = s.subrange(i, i + m);
                    if m < n {
                        assert(scan::word_char(s[i + m]));
                    }
                    if m > n {
                        assert(part[n] == s[end]);
                        assert(scan::word_char(from[n]));
                    }
                }
            }
            lemma_renamed_from(s, from, to, end);
            if w != from {
                lemma_inside_word(s, from, to, i + 1, end);
                assert(seq![s[i]] + (s.subrange(i + 1, end) + renamed_from(s, from, to, end))
                    =~= w + renamed_from(s, from, to, end));
            }
        }
    }
}

/// Where the text to rename is a word, each word that equals it is replaced and nothing
/// else is.
pub proof fn law_renaming_replaces_words(s: Seq<char>, from: Seq<char>, to: Seq<char>)
    requires
        is_word(from),
    ensures
        renamed_from(s, from, to, 0) == renamed(s, from, to),
{
    lemma_renamed_from(s, from, to, 0);
    assert(s.skip(0) =~= s);
}

fn occurs_apart(s: &Vec<char>, from: &Vec<char>, i: usize) -> (r: bool)
    requires
        i < s@.len(),
    ensures
        r == stands_at(s@, from@, i as int),
{
    if from.len() > s.len() - i {
        return false;
    }
    let end = i + from.len();
    let mut k: usize = 0;
    while k < from.len()
        invariant
            k <= from@.len(),
            end == i + from@.len(),
            end <= s@.len(),
            forall|l: int| 0 <= l < k ==> #[trigger] from@[l] == s@[i + l],
        decreases from@.len() - k,
    {
        if from[k] != s[i + k] {
            proof {
                assert(s@.subrange(i as int, end as int)[k as int] == s@[i + k]);
            }
            return false;
        }
        k += 1;
    }
    proof {
        assert(s@.subrange(i as int, end as int) =~= from@);
    }
    (i == 0 || !is_word_char(s[i - 1])) && (end == s.len() || !is_word_char(s[end]))
}

/// Rename a variable wherever it stands as a word of its own. The empty text must stand
/// apart from words nowhere: it could be put there without end.
pub fn rename_var_in_sexp(sexp: &str, from: &str, to: &str) -> (r: String)
    requires
        from@.len() == 0 ==> forall|i: int|
            0 <= i < sexp@.len() ==> !#[trigger] stands_at(sexp@, from@, i),
    ensures
        r@ == renamed_from(sexp@, from@, to@, 0),
        is_word(from@) ==> r@ == renamed(sexp@, from@, to@),
{
    let v = chars_of(sexp);
    let name = chars_of(from);
    let mut r = String::new();
    let mut i: usize = 0;
    proof {
        assert(r@ + renamed_from(v@, name@, to@, 0) =~= renamed_from(v@, name@, to@, 0));
        if is_word(from@) {
            law_renaming_replaces_words(sexp@, from@, to@);
        }
    }
    while i < v.len()
        invariant
            i <= v@.len(),
            name@.len() == 0 ==> forall|k: int|
                0 <= k < v@.len() ==> !#[trigger] stands_at(v@, name@, k),
            r@ + renamed_from(v@, name@, to@, i as int) == renamed_from(v@, name@, to@, 0),
        decreases v@.len() - i,
    {
        let ghost had = r@;
        if occurs_apart(&v, &name, i) {
            r.append(to);
            proof {
                assert(r@ + renamed_from(v@, name@, to@, i + name@.len()) =~= had + (to@
                    + renamed_from(v@, name@, to@, i + name@.len())));
            }
            i = i + name.len();
        } else {
            r.push(v[i]);
            proof {
                assert(r@ + renamed_from(v@, name@, to@, i + 1) =~= had + (seq![v@[i as int]]
                    + renamed_from(v@, name@, to@, i + 1)));
            }
            i += 1;
        }
    }
    proof {
        assert(r@ + renamed_from(v@, name@, to@, i as int) =~= r@);
    }
    r
}

/// The name of a variable.
pub open spec fn pre_name(i: nat) -> Seq<char> {
    "v"@ + text::dec(i)
}

/// The name of a variable after a transition.
pub open spec fn post_name(i: nat) -> Seq<char> {
    "v"@ + text::dec(i) + "p"@
}

/// The formula about the first `n` variables after a transition.
pub open spec fn to_post(s: Seq<char>, n: nat) -> Seq<char>
    decreases n,
{
    if n == 0 {
        s
    } else {
        let i = (n - 1) as nat;
        to_post(renamed(s, pre_name(i), post_name(i)), i)
    }
}

/// The formula about the first `n` variables before a transition.
pub open spec fn to_pre(s: Seq<char>, n: nat) -> Seq<char>
    decreases n,
{
    if n == 0 {
        s
    } else {
        let i = (n - 1) as nat;
        to_pre(renamed(s, post_name(i), pre_name(i)), i)
    }
}

proof fn lemma_all_word(s: Seq<char>)
    requires
        forall|i: int| 0 <= i < s.len() ==> scan::word_char(#[trigger] s[i]),
    ensures
        word_len(s) == s.len(),
    decreases s.len(),
{
    if s.len() > 0 {
        assert forall|i: int| 0 <= i < s.skip(1).len() implies scan::word_char(#[trigger] s.skip(1)[i]) by {
            assert(s.skip(1)[i] == s[i + 1]);
        }
        lemma_all_word(s.skip(1));
    }
}

proof fn lemma_dec_chars(n: nat)
    ensures
        text::dec(n).len() > 0,
        forall|i: int| 0 <= i < text::dec(n).len() ==> scan::digit_char(#[trigger] text::dec(n)[i]),
    decreases n,
{
    if n >= 10 {
        lemma_dec_chars(n / 10);
    }
}

proof fn lemma_names_are_words(i: nat)
    ensures
        is_word(pre_name(i)),
        is_word(post_name(i)),
{
    reveal_strlit("v");
    reveal_strlit("p");
    lemma_dec_chars(i);
    lemma_all_word(pre_name(i));
    lemma_all_word(post_name(i));
}

/// Rename the variables to what they are after a transition.
pub fn rename_vars_to_post(formula: &str, n_vars: usize) -> (r: String)
    ensures
        r@ == to_post(formula@, n_vars as nat),
{
    let mut r = formula.to_string();
    let mut i: usize = n_vars;
    while i > 0
        invariant
            i <= n_vars,
            to_post(r@, i as nat) == to_post(formula@, n_vars as nat),
        decreases i,
    {
        i -= 1;
        proof {
            lemma_names_are_words(i as nat);
        }
        let from = numbered("v", i as u64);
        let mut to = numbered("v", i as u64);
        to.append("p");
        r = rename_var_in_sexp(r.as_str(), from.as_str(), to.as_str());
    }
    r
}

/// Rename the variables back to what they are before a transition.
pub fn rename_post_to_vars(formula: &str, n_vars: usize) -> (r: String)
    ensures
        r@ == to_pre(formula@, n_vars as nat),
{
    let mut r = formula.to_string();
    let mut i: usize = n_vars;
    while i > 0
        invariant
            i <= n_vars,
            to_pre(r@, i as nat) == to_pre(formula@, n_vars as nat),
        decreases i,
    {
        i -= 1;
        proof {
            lemma_names_are_words(i as nat);
        }
        let mut from = numbered("v", i as u64);
        from.append("p");
        let to = numbered("v", i as u64);
        r = rename_var_in_sexp(r.as_str(), from.as_str(), to.as_str());
    }
    r
}

/// Is the word one of those that stand for an unknown value?
pub open spec fn generated(w: Seq<char>) -> bool {
    &&& text::starts(w, "nd"@) || text::starts(w, "bw"@) || text::starts(w, "hv"@)
    &&& w.len() > 2
    &&& forall|i: int| 2 <= i < w.len() ==> scan::digit_char(#[trigger] w[i])
}

/// The words among the first `n` that stand for unknown values and are not
/// declared, each once.
pub open spec fn free_vars(tokens: Seq<Seq<char>>, declarations: Seq<char>, n: nat) -> Seq<Seq<char>>
    decreases n,
{
    if n == 0 {
        Seq::empty()
    } else {
        let rest = free_vars(tokens, declarations, (n - 1) as nat);
        let w = tokens[n - 1];
        if generated(w) && !text::holds_part(declarations, w) && !rest.contains(w) {
            rest.push(w)
        } else {
            rest
        }
    }
}

/// The words of a formula that stand for unknown values and are not declared.
pub open spec fn free_in(formula: Seq<char>, declarations: Seq<char>) -> Seq<Seq<char>> {
    let tokens = scan::pieces(formula, Cut::Words);
    free_vars(tokens, declarations, tokens.len())
}

fn is_generated(w: &Vec<char>) -> (r: bool)
    ensures
        r == generated(w@),
{
    let t = to_text(w);
    if !(starts_with(t.as_str(), "nd") || starts_with(t.as_str(), "bw") || starts_with(
        t.as_str(),
        "hv",
    )) {
        return false;
    }
    if w.len() <= 2 {
        return false;
    }
    let mut i: usize = 2;
    while i < w.len()
        invariant
            2 <= i <= w@.len(),
            forall|j: int| 2 <= j < i ==> scan::digit_char(#[trigger] w@[j]),
        decreases w@.len() - i,
    {
        if !is_digit_char(w[i]) {
            return false;
        }
        i += 1;
    }
    true
}

fn in_texts(v: &Vec<String>, s: &str) -> (r: bool)
    ensures
        r == text::views(v@).contains(s@),
{
    let ghost all = text::views(v@);
    let mut i: usize = 0;
    while i < v.len()
        invariant
            i <= v@.len(),
            all == text::views(v@),
            forall|j: int| 0 <= j < i ==> all[j] != s@,
        decreases v@.len() - i,
    {
        if same(v[i].as_str(), s) {
            proof {
                assert(all[i as int] == s@);
            }
            return true;
        }
        proof {
            assert(all[i as int] == v@[i as int]@);
        }
        i += 1;
    }
    false
}

/// The words of a formula that stand for unknown values and are not declared.
pub fn collect_free_vars(formula: &str, declarations: &str) -> (r: Vec<String>)
    ensures
        text::views(r@) == free_in(formula@, declarations@),
{
    let tokens = cut_up(&chars_of(formula), Cut::Words);
    let ghost all = scan::char_views(tokens@);
    let mut r: Vec<String> = Vec::new();
    let mut i: usize = 0;
    proof {
        assert(text::views(r@) =~= free_vars(all, declarations@, 0));
    }
    while i < tokens.len()
        invariant
            i <= tokens@.len(),
            all == scan::char_views(tokens@),
            text::views(r@) == free_vars(all, declarations@, i as nat),
        decreases tokens@.len() - i,
    {
        let w = to_text(&tokens[i]);
        proof {
            assert(all[i as int] == w@);
        }
        if is_generated(&tokens[i]) && !contains(declarations, w.as_str()) && !in_texts(
            &r,
            w.as_str(),
        ) {
            let ghost had = text::views(r@);
            r.push(w);
            proof {
                assert(text::views(r@) =~= had.push(w@));
            }
        }
        i += 1;
    }
    r
}

/// The names of `more` that `names` does not have, added in order.
pub open spec fn united(names: Seq<Seq<char>>, more: Seq<Seq<char>>, n: nat) -> Seq<Seq<char>>
    decreases n,
{
    if n == 0 {
        names
    } else {
        let rest = united(names, more, (n - 1) as nat);
        if rest.contains(more[n - 1]) {
            rest
        } else {
            rest.push(more[n - 1])
        }
    }
}

/// The declarations of the first `n` names.
pub open spec fn declare_all(names: Seq<Seq<char>>, n: nat) -> Seq<char>
    decreases n,
{
    if n == 0 {
        Seq::empty()
    } else {
        declare_all(names, (n - 1) as nat) + interpolation::declare_int(names[n - 1])
    }
}

/// The declarations of an encoding, and of what it and the error mention besides.
pub open spec fn complete_decls(e: LiaV, error: Seq<char>) -> Seq<char> {
    let a = free_in(e.transition, e.declarations);
    let b = free_in(error, e.declarations);
    let names = united(a, b, b.len());
    e.declarations + declare_all(names, names.len())
}

fn make_complete_decls(declarations: &str, transition: &str, error: &str) -> (s: String)
    ensures
        forall|e: LiaV|
            e.declarations == declarations@ && e.transition == transition@ ==> s@
                == #[trigger] complete_decls(e, error@),
{
    let mut names = collect_free_vars(transition, declarations);
    let more = collect_free_vars(error, declarations);
    let ghost a = text::views(names@);
    let ghost b = text::views(more@);
    let mut i: usize = 0;
    while i < more.len()
        invariant
            i <= more@.len(),
            b == text::views(more@),
            text::views(names@) == united(a, b, i as nat),
        decreases more@.len() - i,
    {
        proof {
            assert(b[i as int] == more@[i as int]@);
        }
        if !in_texts(&names, more[i].as_str()) {
            let ghost had = text::views(names@);
            names.push(more[i].clone());
            proof {
                assert(text::views(names@) =~= had.push(b[i as int]));
            }
        }
        i += 1;
    }
    let ghost all = text::views(names@);
    let mut extra = String::new();
    let mut k: usize = 0;
    while k < names.len()
        invariant
            k <= names@.len(),
            all == text::views(names@),
            extra@ == declare_all(all, k as nat),
        decreases names@.len() - k,
    {
        proof {
            assert(all[k as int] == names@[k as int]@);
        }
        let mut d = "(declare-fun ".to_string();
        d.append(names[k].as_str());
        d.append(" () Int)\n");
        extra.append(d.as_str());
        k += 1;
    }
    let mut s = declarations.to_string();
    s.append(extra.as_str());
    s
}

/// An attempt to prove an obligation.
#[derive(Debug)]
pub struct ImcRun {
    pub declarations: String,
    pub transition: String,
    /// The error, after a transition.
    pub error_post: String,
    /// What is known to be reachable.
    pub reachable: String,
    /// How many interpolants were found so far.
    pub iteration: u32,
    pub n_vars: usize,
}

/// View of [`ImcRun`].
#[verifier::ext_equal]
pub struct ImcV {
    pub declarations: Seq<char>,
    pub transition: Seq<char>,
    pub error_post: Seq<char>,
    pub reachable: Seq<char>,
    pub iteration: int,
    pub n_vars: nat,
}

impl View for ImcRun {
    type V = ImcV;

    open spec fn view(&self) -> ImcV {
        ImcV {
            declarations: self.declarations@,
            transition: self.transition@,
            error_post: self.error_post@,
            reachable: self.reachable@,
            iteration: self.iteration as int,
            n_vars: self.n_vars as nat,
        }
    }
}

/// What an attempt came to, or has to ask next.
#[derive(Debug)]
pub enum ImcNext {
    /// The obligation holds.
    Proved,
    /// Nothing can be said.
    Inconclusive,
    /// The solver does not interpolate.
    Failed(String),
    /// Ask for the next interpolant.
    Interpolate,
    /// Find out with the script whether the interpolant is known to be reachable,
    /// and go on with [`ImcRun::checked`].
    Check { script: String, interpolant: String },
}

/// The first condition under which the obligation is violated.
pub open spec fn error_for(errors: Seq<(ObligationId, Seq<char>)>, id: ObligationId, i: nat) -> Option<
    Seq<char>,
>
    decreases errors.len() - i,
{
    if i >= errors.len() {
        None
    } else if errors[i as int].0 == id {
        Some(errors[i as int].1)
    } else {
        error_for(errors, id, i + 1)
    }
}

/// The attempt at its start: everything is taken to be reachable.
pub open spec fn imc_start(e: LiaV, error: Seq<char>) -> ImcV {
    ImcV {
        declarations: complete_decls(e, error),
        transition: e.transition,
        error_post: to_post(error, e.n_vars),
        reachable: "true"@,
        iteration: 0,
        n_vars: e.n_vars,
    }
}

/// The first part of a query: the transition from what is reachable.
pub open spec fn first_part(run: ImcV) -> Seq<char> {
    if run.reachable == "true"@ {
        run.transition
    } else {
        text::sexp2("and"@, run.reachable, run.transition)
    }
}

/// The script that finds out whether `a` implies `b`.
pub open spec fn subsumption_text(declarations: Seq<char>, a: Seq<char>, b: Seq<char>) -> Seq<char> {
    "(set-logic QF_LIA)\n"@ + declarations + "\n(assert "@ + text::sexp2(
        "and"@,
        a,
        text::sexp1("not"@, b),
    ) + ")\n(check-sat)\n(exit)\n"@
}

/// The attempt with an interpolant added to what is reachable.
pub open spec fn widened(run: ImcV, interpolant: Seq<char>) -> ImcV {
    ImcV {
        reachable: if run.reachable == "true"@ {
            "true"@
        } else {
            text::sexp2("or"@, run.reachable, interpolant)
        },
        iteration: run.iteration + 1,
        ..run
    }
}

/// Begin an attempt. `None` if the body has no check of the obligation, so that it
/// holds.
pub fn start_imc(body: &Body, oid: ObligationId) -> (r: Option<ImcRun>)
    requires
        body.well_formed(),
        interpolation::lia_writable(*body, seq![oid]),
    ensures
        exists|theory: LiaTheory|
            {
                let e = #[trigger] interpolation::lia_encoding(&theory, *body, seq![oid], ""@);
                &&& theory.prefix@ == ""@
                &&& match (r, error_for(e.error_formulas, oid, 0)) {
                    (Some(run), Some(error)) => run@ == imc_start(e, error),
                    (None, None) => true,
                    _ => false,
                }
            },
{
    let mut ids: Vec<ObligationId> = Vec::new();
    ids.push(oid);
    proof {
        assert(ids@ =~= seq![oid]);
    }
    let enc = encode_body_lia(body, ids.as_slice(), "");
    let ghost e = enc@;
    let ghost theory = choose|theory: LiaTheory|
        {
            &&& theory.prefix@ == ""@
            &&& e == #[trigger] interpolation::lia_encoding(&theory, *body, seq![oid], ""@)
        };
    let mut i: usize = 0;
    while i < enc.error_formulas.len()
        invariant
            i <= enc.error_formulas@.len(),
            e == enc@,
            theory.prefix@ == ""@,
            e == interpolation::lia_encoding(&theory, *body, seq![oid], ""@),
            error_for(e.error_formulas, oid, 0) == error_for(e.error_formulas, oid, i as nat),
        decreases enc.error_formulas@.len() - i,
    {
        proof {
            assert(e.error_formulas[i as int] == (
                enc.error_formulas@[i as int].0,
                enc.error_formulas@[i as int].1@,
            ));
        }
        if enc.error_formulas[i].0 == oid {
            let error = enc.error_formulas[i].1.as_str();
            let declarations = make_complete_decls(
                enc.declarations.as_str(),
                enc.transition.as_str(),
                error,
            );
            let run = ImcRun {
                declarations,
                transition: enc.transition.clone(),
                error_post: rename_vars_to_post(error, enc.n_vars),
                reachable: "true".to_string(),
                iteration: 0,
                n_vars: enc.n_vars,
            };
            proof {
                assert(run@ == imc_start(e, error@));
            }
            return Some(run);
        }
        i += 1;
    }
    None
}

impl ImcRun {
    /// The two parts to interpolate between: the transition from what is
    /// reachable, and the error after it.
    pub fn parts(&self) -> (r: (String, String))
        ensures
            r.0@ == first_part(self@),
            r.1@ == self.error_post@,
    {
        let a = if same(self.reachable.as_str(), "true") {
            self.transition.clone()
        } else {
            make_sexp2("and", self.reachable.as_str(), self.transition.as_str())
        };
        (a, self.error_post.clone())
    }

    /// Go on with the result of a query.
    pub fn answered(&self, result: &InterpolationResult) -> (r: ImcNext)
        ensures
            match result@ {
                InterpolationV::Interpolant(itp) => if self.reachable@ == "true"@ {
                    r is Proved
                } else {
                    r matches ImcNext::Check { script, interpolant } && interpolant@ == to_pre(
                        itp,
                        self.n_vars as nat,
                    ) && script@ == subsumption_text(
                        self.declarations@,
                        interpolant@,
                        self.reachable@,
                    )
                },
                InterpolationV::Sat => r is Inconclusive,
                InterpolationV::Unsupported => r matches ImcNext::Failed(e) && e@
                    == "interpolation not supported"@,
            },
    {
        match result {
            InterpolationResult::Interpolant(itp) => {
                let pre = rename_post_to_vars(itp.as_str(), self.n_vars);
                if same(self.reachable.as_str(), "true") {
                    return ImcNext::Proved;
                }
                let n = make_sexp1("not", self.reachable.as_str());
                let f = make_sexp2("and", pre.as_str(), n.as_str());
                let mut script = "(set-logic QF_LIA)\n".to_string();
                script.append(self.declarations.as_str());
                script.append("\n(assert ");
                script.append(f.as_str());
                script.append(")\n(check-sat)\n(exit)\n");
                ImcNext::Check { script, interpolant: pre }
            },
            InterpolationResult::Sat => ImcNext::Inconclusive,
            InterpolationResult::Unsupported => ImcNext::Failed(
                "interpolation not supported".to_string(),
            ),
        }
    }

    /// Go on with the lines that the solver wrote about an interpolant, or none if
    /// it could not be run. What is not known to be reachable is added.
    pub fn checked(&mut self, interpolant: &str, reply: &Option<Vec<String>>) -> (r: ImcNext)
        requires
            old(self).iteration < MAX_ITERATIONS,
        ensures
            ({
                let implied = reply matches Some(lines) && lines@.len() > 0 && scan::trim(lines@[0]@)
                    == "unsat"@;
                if implied {
                    r is Proved && final(self)@ == old(self)@
                } else {
                    &&& final(self)@ == widened(old(self)@, interpolant@)
                    &&& if final(self).iteration < MAX_ITERATIONS {
                        r is Interpolate
                    } else {
                        r is Inconclusive
                    }
                }
            }),
    {
        if let Some(lines) = reply {
            if lines.len() > 0 {
                let line = to_text(&trimmed(&chars_of(lines[0].as_str())));
                if same(line.as_str(), "unsat") {
                    return ImcNext::Proved;
                }
            }
        }
        if !same(self.reachable.as_str(), "true") {
            self.reachable = make_sexp2("or", self.reachable.as_str(), interpolant);
        }
        self.iteration = self.iteration + 1;
        if self.iteration < MAX_ITERATIONS {
            ImcNext::Interpolate
        } else {
            ImcNext::Inconclusive
        }
    }
}

/// Proves obligations by interpolation.
#[derive(Debug)]
pub struct ImcEngine {
    pub solver: Option<InterpolationSolver>,
    pub done: bool,
}

/// What a step begins with.
#[derive(Debug)]
pub enum ImcStart {
    /// There is nothing to do.
    End(Progress),
    /// Try to prove these obligations, one after the other.
    Try(Vec<ObligationRef>),
}

/// Can the obligation be tried: is there a body, and does it have no operations
/// that the encoding says nothing about?
pub open spec fn tractable(p: Program, o: ObligationRefV) -> bool {
    p.body_of(o.method) matches Some(b) && !body_analysis::some_stmt(
        b,
        |s: Stmt| body_analysis::havocs(s),
    )
}

/// The obligations of bounded results that can be tried, in order.
pub open spec fn tractable_of(p: Program, bounded: Seq<(ObligationRefV, u32)>) -> Seq<ObligationRefV>
    decreases bounded.len(),
{
    if bounded.len() == 0 {
        Seq::empty()
    } else if tractable(p, bounded.last().0) {
        tractable_of(p, bounded.drop_last()).push(bounded.last().0)
    } else {
        tractable_of(p, bounded.drop_last())
    }
}

impl ImcEngine {
    /// An engine that uses the given solver, if there is one.
    pub fn new(solver: Option<InterpolationSolver>) -> (r: Self)
        ensures
            r.solver == solver,
            !r.done,
    {
        ImcEngine { solver, done: false }
    }

    pub fn id(&self) -> (r: EngineId)
        ensures
            (r.0)@ == "imc"@,
    {
        EngineId("imc")
    }

    pub fn direction(&self) -> (d: Direction)
        ensures
            d == Direction::Over,
    {
        Direction::Over
    }

    /// How this engine discharges an obligation.
    pub fn proof_kind(&self) -> (r: ProofKind)
        ensures
            r == ProofKind::Exhaustive,
    {
        ProofKind::Exhaustive
    }

    /// Is there a solver?
    pub fn available(&self) -> (r: bool)
        ensures
            r == self.solver is Some,
    {
        self.solver.is_some()
    }

    /// Begin a step with the obligations that are open and their states. Only those
    /// with a bounded result are tried.
    pub fn begin(&mut self, prog: &Program, open: &Vec<(ObligationRef, Status)>) -> (r: ImcStart)
        ensures
            final(self).done,
            final(self).solver == old(self).solver,
            ({
                let idle = old(self).done || old(self).solver is None || open@.len() == 0;
                let bounded = engine::bounded_of(open@);
                &&& r is Try <==> !idle && bounded.len() > 0
                &&& match r {
                    ImcStart::End(p) => {
                        &&& p != Progress::Advanced
                        &&& p == Progress::Exhausted <==> idle
                        &&& p == Progress::Stalled <==> !idle && bounded.len() == 0
                    },
                    ImcStart::Try(v) => engine::ref_views(v@) == tractable_of(*prog, bounded),
                }
            }),
    {
        if self.done {
            return ImcStart::End(Progress::Exhausted);
        }
        self.done = true;
        if self.solver.is_none() {
            return ImcStart::End(Progress::Exhausted);
        }
        if open.len() == 0 {
            return ImcStart::End(Progress::Exhausted);
        }
        let bounded = bounded_obligations(open);
        let ghost all = engine::bound_views(bounded@);
        if bounded.len() == 0 {
            proof {
                assert(all.len() == 0);
            }
            return ImcStart::End(Progress::Stalled);
        }
        let mut out: Vec<ObligationRef> = Vec::new();
        let mut i: usize = 0;
        proof {
            assert(engine::ref_views(out@) =~= tractable_of(*prog, all.take(0)));
        }
        while i < bounded.len()
            invariant
                i <= bounded@.len(),
                all == engine::bound_views(bounded@),
                engine::ref_views(out@) == tractable_of(*prog, all.take(i as int)),
            decreases bounded@.len() - i,
        {
            proof {
                assert(all.take(i + 1).drop_last() =~= all.take(i as int));
                assert(all[i as int].0 == bounded@[i as int].0@);
            }
            let take = match prog.body(&bounded[i].0.method) {
                Some(b) => !body_uses_havoced_ops(b),
                None => false,
            };
            if take {
                let ghost had = engine::ref_views(out@);
                out.push(bounded[i].0.clone());
                proof {
                    assert(engine::ref_views(out@) =~= had.push(all[i as int].0));
                }
            }
            i += 1;
        }
        proof {
            assert(all.take(i as int) =~= all);
        }
        ImcStart::Try(out)
    }
}

proof fn lemma_word_len_shift(w: Seq<char>, rest: Seq<char>)
    requires
        word_len(w) == w.len(),
        rest.len() == 0 || !scan::word_char(rest[0]),
    ensures
        word_len(w + rest) == w.len(),
    decreases w.len(),
{
    if w.len() == 0 {
        assert(w + rest =~= rest);
    } else {
        lemma_word_len(w);
        assert((w + rest).skip(1) =~= w.skip(1) + rest);
        assert(w[0] == (w + rest)[0]);
        lemma_word_len_shift(w.skip(1), rest);
    }
}

proof fn lemma_take_is_word(s: Seq<char>)
    requires
        word_len(s) > 0,
    ensures
        is_word(s.take(word_len(s) as int)),
{
    lemma_word_len(s);
    lemma_all_word(s.take(word_len(s) as int));
}

proof fn lemma_replaced_head(s: Seq<char>, f: spec_fn(Seq<char>) -> Seq<char>)
    requires
        s.len() == 0 || !scan::word_char(s[0]),
    ensures
        replaced(s, f).len() == 0 || !scan::word_char(replaced(s, f)[0]),
{
    if s.len() > 0 {
        assert(word_len(s) == 0);
        assert(replaced(s, f)[0] == s[0]);
    }
}

/// A replacement that puts words in place of words.
spec fn keeps_words(f: spec_fn(Seq<char>) -> Seq<char>) -> bool {
    forall|w: Seq<char>| #[trigger] is_word(w) ==> is_word(f(w))
}

proof fn lemma_replaced_twice(
    s: Seq<char>,
    f: spec_fn(Seq<char>) -> Seq<char>,
    g: spec_fn(Seq<char>) -> Seq<char>,
    h: spec_fn(Seq<char>) -> Seq<char>,
)
    requires
        keeps_words(f),
        forall|w: Seq<char>| #[trigger] is_word(w) ==> h(w) == g(f(w)),
    ensures
        replaced(replaced(s, f), g) == replaced(s, h),
    decreases s.len(),
{
    lemma_word_len(s);
    if s.len() == 0 {
    } else if word_len(s) == 0 {
        let rest = s.skip(1);
        lemma_replaced_twice(rest, f, g, h);
        let t = replaced(s, f);
        assert(t =~= seq![s[0]] + replaced(rest, f));
        assert(t[0] == s[0]);
        assert(word_len(t) == 0);
        assert(t.skip(1) =~= replaced(rest, f));
    } else {
        let k = word_len(s) as int;
        let w = s.take(k);
        let rest = s.skip(k);
        lemma_take_is_word(s);
        lemma_replaced_twice(rest, f, g, h);
        lemma_replaced_head(rest, f);
        let v = f(w);
        assert(is_word(w));
        assert(is_word(v));
        let t = replaced(s, f);
        assert(t == v + replaced(rest, f));
        lemma_word_len_shift(v, replaced(rest, f));
        assert(t.take(v.len() as int) =~= v);
        assert(t.skip(v.len() as int) =~= replaced(rest, f));
        assert(h(w) == g(v));
    }
}

/// Is the word among those of the text?
pub open spec fn has_word(s: Seq<char>, w: Seq<char>) -> bool
    decreases s.len(),
{
    if s.len() == 0 {
        false
    } else if word_len(s) == 0 || word_len(s) > s.len() {
        has_word(s.skip(1), w)
    } else {
        s.take(word_len(s) as int) == w || has_word(s.skip(word_len(s) as int), w)
    }
}

proof fn lemma_replaced_same(s: Seq<char>, f: spec_fn(Seq<char>) -> Seq<char>)
    requires
        forall|w: Seq<char>| #[trigger] has_word(s, w) ==> f(w) == w,
    ensures
        replaced(s, f) == s,
    decreases s.len(),
{
    lemma_word_len(s);
    if s.len() == 0 {
        assert(replaced(s, f) =~= s);
    } else if word_len(s) == 0 {
        assert forall|w: Seq<char>| #[trigger] has_word(s.skip(1), w) implies f(w) == w by {
            assert(has_word(s, w));
        }
        lemma_replaced_same(s.skip(1), f);
        assert(seq![s[0]] + s.skip(1) =~= s);
    } else {
        let k = word_len(s) as int;
        assert(has_word(s, s.take(k)));
        assert forall|w: Seq<char>| #[trigger] has_word(s.skip(k), w) implies f(w) == w by {
            assert(has_word(s, w));
        }
        lemma_replaced_same(s.skip(k), f);
        assert(s.take(k) + s.skip(k) =~= s);
    }
}

/// What becomes of a word when the first `n` variables are renamed to those after a
/// transition.
pub open spec fn post_word(w: Seq<char>, n: nat) -> Seq<char>
    decreases n,
{
    if n == 0 {
        w
    } else {
        let i = (n - 1) as nat;
        post_word(swap(pre_name(i), post_name(i))(w), i)
    }
}

/// What becomes of a word when the first `n` variables are renamed back.
spec fn pre_word(w: Seq<char>, n: nat) -> Seq<char>
    decreases n,
{
    if n == 0 {
        w
    } else {
        let i = (n - 1) as nat;
        pre_word(swap(post_name(i), pre_name(i))(w), i)
    }
}

proof fn lemma_names_apart(i: nat, j: nat)
    ensures
        pre_name(i) != post_name(j),
        pre_name(i) == pre_name(j) ==> i == j,
        post_name(i) == post_name(j) ==> i == j,
{
    reveal_strlit("v");
    reveal_strlit("p");
    lemma_dec_chars(i);
    lemma_dec_chars(j);
    assert(scan::digit_char(pre_name(i).last())) by {
        assert(pre_name(i).last() == text::dec(i).last());
    }
    assert(!scan::digit_char(post_name(j).last()));
    if pre_name(i) == pre_name(j) {
        assert(pre_name(i).skip(1) =~= text::dec(i));
        assert(pre_name(j).skip(1) =~= text::dec(j));
        crate::smt_text::law_decimals_are_distinct(i, j);
    }
    if post_name(i) == post_name(j) {
        assert(post_name(i).drop_last().skip(1) =~= text::dec(i));
        assert(post_name(j).drop_last().skip(1) =~= text::dec(j));
        crate::smt_text::law_decimals_are_distinct(i, j);
    }
}

proof fn lemma_post_word(w: Seq<char>, n: nat)
    ensures
        is_word(w) ==> is_word(post_word(w, n)),
        (forall|i: nat| i < n ==> w != #[trigger] pre_name(i)) ==> post_word(w, n) == w,
        forall|i: nat| i < n && w == #[trigger] pre_name(i) ==> post_word(w, n) == post_name(i),
    decreases n,
{
    if n > 0 {
        let i = (n - 1) as nat;
        let v = swap(pre_name(i), post_name(i))(w);
        lemma_post_word(v, i);
        lemma_names_are_words(i);
        if w == pre_name(i) {
            assert forall|j: nat| j < i implies v != #[trigger] pre_name(j) by {
                lemma_names_apart(j, i);
            }
            assert forall|j: nat| j < n && w == #[trigger] pre_name(j) implies post_word(w, n)
                == post_name(j) by {
                lemma_names_apart(j, i);
            }
        } else {
            assert forall|j: nat| j < n && w == #[trigger] pre_name(j) implies post_word(w, n)
                == post_name(j) by {
                assert(j < i);
            }
        }
    }
}

proof fn lemma_pre_word(w: Seq<char>, n: nat)
    ensures
        (forall|i: nat| i < n ==> w != #[trigger] post_name(i)) ==> pre_word(w, n) == w,
        forall|i: nat| i < n && w == #[trigger] post_name(i) ==> pre_word(w, n) == pre_name(i),
    decreases n,
{
    if n > 0 {
        let i = (n - 1) as nat;
        let v = swap(post_name(i), pre_name(i))(w);
        lemma_pre_word(v, i);
        if w == post_name(i) {
            assert forall|j: nat| j < i implies v != #[trigger] post_name(j) by {
                lemma_names_apart(i, j);
            }
            assert forall|j: nat| j < n && w == #[trigger] post_name(j) implies pre_word(w, n)
                == pre_name(j) by {
                lemma_names_apart(j, i);
            }
        } else {
            assert forall|j: nat| j < n && w == #[trigger] post_name(j) implies pre_word(w, n)
                == pre_name(j) by {
                assert(j < i);
            }
        }
    }
}

proof fn lemma_to_post_words(s: Seq<char>, n: nat)
    ensures
        to_post(s, n) == replaced(s, |w: Seq<char>| post_word(w, n)),
    decreases n,
{
    if n == 0 {
        lemma_replaced_same(s, |w: Seq<char>| post_word(w, 0));
    } else {
        let i = (n - 1) as nat;
        let f = swap(pre_name(i), post_name(i));
        let g = |w: Seq<char>| post_word(w, i);
        let h = |w: Seq<char>| post_word(w, n);
        lemma_to_post_words(replaced(s, f), i);
        lemma_names_are_words(i);
        assert(keeps_words(f));
        lemma_replaced_twice(s, f, g, h);
    }
}

proof fn lemma_to_pre_words(s: Seq<char>, n: nat)
    ensures
        to_pre(s, n) == replaced(s, |w: Seq<char>| pre_word(w, n)),
    decreases n,
{
    if n == 0 {
        lemma_replaced_same(s, |w: Seq<char>| pre_word(w, 0));
    } else {
        let i = (n - 1) as nat;
        let f = swap(post_name(i), pre_name(i));
        let g = |w: Seq<char>| pre_word(w, i);
        let h = |w: Seq<char>| pre_word(w, n);
        lemma_to_pre_words(replaced(s, f), i);
        lemma_names_are_words(i);
        assert(keeps_words(f));
        lemma_replaced_twice(s, f, g, h);
    }
}

/// Renaming the variables to those after a transition and back gives the formula,
/// if it mentions none of the latter to begin with.
pub proof fn law_renaming_is_undone(s: Seq<char>, n: nat)
    requires
        forall|i: nat| i < n ==> !has_word(s, #[trigger] post_name(i)),
    ensures
        to_pre(to_post(s, n), n) == s,
{
    let f = |w: Seq<char>| post_word(w, n);
    let g = |w: Seq<char>| pre_word(w, n);
    let h = |w: Seq<char>| pre_word(post_word(w, n), n);
    lemma_to_post_words(s, n);
    lemma_to_pre_words(to_post(s, n), n);
    assert(keeps_words(f)) by {
        assert forall|w: Seq<char>| #[trigger] is_word(w) implies is_word(f(w)) by {
            lemma_post_word(w, n);
        }
    }
    lemma_replaced_twice(s, f, g, h);
    assert forall|w: Seq<char>| #[trigger] has_word(s, w) implies h(w) == w by {
        lemma_post_word(w, n);
        lemma_pre_word(post_word(w, n), n);
        lemma_pre_word(w, n);
        if exists|i: nat| i < n && w == #[trigger] pre_name(i) {
            let i = choose|i: nat| i < n && w == #[trigger] pre_name(i);
            assert(post_word(w, n) == post_name(i));
        } else {
            assert(post_word(w, n) == w);
        }
    }
    lemma_replaced_same(s, h);
}

/// No word that is a variable before a transition is left among the first `n` when
/// a formula is renamed.
pub proof fn law_renaming_replaces_every_variable(s: Seq<char>, n: nat)
    ensures
        to_post(s, n) == replaced(s, |w: Seq<char>| post_word(w, n)),
        forall|i: nat| i < n ==> post_word(#[trigger] pre_name(i), n) == post_name(i),
        forall|w: Seq<char>|
            (forall|i: nat| i < n ==> w != #[trigger] pre_name(i)) ==> #[trigger] post_word(w, n)
                == w,
{
    lemma_to_post_words(s, n);
    assert forall|w: Seq<char>| (forall|i: nat| i < n ==> w != #[trigger] pre_name(i)) implies
        #[trigger] post_word(w, n) == w by {
        lemma_post_word(w, n);
    }
    assert forall|i: nat| i < n implies post_word(#[trigger] pre_name(i), n) == post_name(i) by {
        lemma_post_word(pre_name(i), n);
    }
}

} // verus!
