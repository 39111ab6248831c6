//! The expression tree of lambda terms and its structural queries.

use vstd::prelude::*;

use crate::ast::model::{
    bound_names, free_in, free_names, fresh_ok, is_normal_form, is_redex, lemma_cand_free_bound,
    lemma_free_names_finite, lemma_free_names_iff, lemma_fresh_unique, lemma_rename_size,
    lemma_step_fixed_point, lemma_step_no_marker, lemma_subst_defined, lemma_subst_fuel,
    lemma_subst_var_size, spec_eval, spec_fresh, spec_rename, spec_simplify, spec_step,
    spec_subst, subst_r, term_size, RedS, TermS,
};
use crate::ast::names::{
    cand, char_digit_val, char_is_digit, digits_of, is_digit_char, lemma_split_parts,
    lemma_val_of_push, make_cand, split_base, split_suffix, trim_trailing_underscores,
    trim_underscores, val_of,
};
use crate::ast::red_type::{reds_of, RedType};
use crate::text::{chars_of, push_char, str_eq, string_from_chars};
use vstd::string::StringExecFns;

verus! {

/// The escape sequence ending coloring, when coloring is on.
pub open spec fn color_reset(color: bool) -> Seq<char> {
    if color {
        "\u{1b}[0m"@
    } else {
        Seq::empty()
    }
}

/// The escape sequence starting the binder color, when coloring is on.
pub open spec fn color_lambda(color: bool) -> Seq<char> {
    if color {
        "\u{1b}[1m\u{1b}[38;5;2m"@
    } else {
        Seq::empty()
    }
}

/// The escape sequence starting the name color, when coloring is on.
pub open spec fn color_name(color: bool) -> Seq<char> {
    if color {
        "\u{1b}[1m\u{1b}[38;5;4m"@
    } else {
        Seq::empty()
    }
}

/// The escape sequence starting the punctuation color, when coloring is on.
pub open spec fn color_gray(color: bool) -> Seq<char> {
    if color {
        "\u{1b}[0m\u{1b}[38;5;240m"@
    } else {
        Seq::empty()
    }
}

/// The parameters of the leading run of abstractions, outermost first.
pub open spec fn abs_params(t: TermS) -> Seq<Seq<char>>
    decreases t,
{
    match t {
        TermS::Abs(param, body) => seq![param] + abs_params(*body),
        _ => Seq::empty(),
    }
}

/// What is left under the leading run of abstractions.
pub open spec fn abs_body(t: TermS) -> TermS
    decreases t,
{
    match t {
        TermS::Abs(_, body) => abs_body(*body),
        _ => t,
    }
}

/// The given names joined with commas.
pub open spec fn join_names(names: Seq<Seq<char>>) -> Seq<char>
    decreases names.len(),
{
    if names.len() == 0 {
        Seq::empty()
    } else if names.len() == 1 {
        names[0]
    } else {
        names[0] + seq![','] + join_names(names.drop_first())
    }
}

/// A rendered subterm wrapped in parentheses, punctuation-colored.
pub open spec fn wrap_parens(color: bool, inner: Seq<char>) -> Seq<char> {
    color_gray(color) + "("@ + color_reset(color) + inner + color_gray(color) + ")"@
        + color_reset(color)
}

/// The textual rendering of a term. A variable is its name; an abstraction
/// is `λ`, its parameter (the whole comma-joined run of parameters when
/// merging), a dot and its rendered body; an application is both sides
/// separated by a space, a side parenthesized when it is itself an
/// application or an abstraction.
pub open spec fn fmt_term(t: TermS, color: bool, merge: bool) -> Seq<char>
    decreases term_size(t),
    via fmt_term_dec
{
    match t {
        TermS::Var(name) => name,
        TermS::Abs(param, body) => {
            if merge {
                color_lambda(color) + "λ"@ + color_name(color) + join_names(abs_params(t))
                    + color_gray(color) + "."@ + color_reset(color) + fmt_term(
                    abs_body(t),
                    color,
                    merge,
                )
            } else {
                color_lambda(color) + "λ"@ + color_name(color) + param + color_gray(color) + "."@
                    + color_reset(color) + fmt_term(*body, color, merge)
            }
        },
        TermS::Apl(func, arg) => {
            let lhs = if (*func is Apl) || (*func is Abs) {
                wrap_parens(color, fmt_term(*func, color, merge))
            } else {
                fmt_term(*func, color, merge)
            };
            let rhs = if (*arg is Apl) || (*arg is Abs) {
                wrap_parens(color, fmt_term(*arg, color, merge))
            } else {
                fmt_term(*arg, color, merge)
            };
            lhs + " "@ + rhs
        },
    }
}

/// Under the leading run of abstractions lies a term no larger.
pub proof fn lemma_abs_body_size(t: TermS)
    ensures
        term_size(abs_body(t)) <= term_size(t),
    decreases t,
{
    match t {
        TermS::Abs(_, body) => {
            lemma_abs_body_size(*body);
        },
        _ => {},
    }
}

#[via_fn]
proof fn fmt_term_dec(t: TermS, color: bool, merge: bool) {
    match t {
        TermS::Abs(_, body) => {
            lemma_abs_body_size(*body);
        },
        _ => {},
    }
}

/// Appending one more name extends the comma-joined rendering.
pub proof fn lemma_join_push(names: Seq<Seq<char>>, x: Seq<char>)
    ensures
        join_names(names.push(x)) == if names.len() == 0 {
            x
        } else {
            join_names(names) + seq![','] + x
        },
    decreases names.len(),
{
    if names.len() == 0 {
        assert(names.push(x)[0] == x);
    } else {
        assert(names.push(x).drop_first() =~= names.drop_first().push(x));
        lemma_join_push(names.drop_first(), x);
        if names.len() == 1 {
            assert(join_names(names) == names[0]);
            assert(join_names(names.push(x)) =~= join_names(names) + seq![','] + x);
        } else {
            assert(join_names(names.push(x)) =~= join_names(names) + seq![','] + x);
        }
    }
}

/// The set of names held by a sequence of strings.
pub open spec fn names_of(ss: Seq<String>) -> Set<Seq<char>> {
    Set::new(|x: Seq<char>| exists|i: int| 0 <= i < ss.len() && ss[i]@ == x)
}

/// No two strings of the sequence hold the same name.
pub open spec fn no_dup_names(ss: Seq<String>) -> bool {
    forall|i: int, j: int| 0 <= i < j < ss.len() ==> ss[i]@ != ss[j]@
}

/// Appending a string adds exactly its name to the held set.
pub proof fn lemma_names_push(ss: Seq<String>, s: String)
    ensures
        names_of(ss.push(s)) =~= names_of(ss).insert(s@),
{
    let t = ss.push(s);
    assert forall|x: Seq<char>| names_of(t).contains(x) implies names_of(ss).insert(
        s@,
    ).contains(x) by {
        let i = choose|i: int| 0 <= i < t.len() && t[i]@ == x;
        if i < ss.len() {
            assert(ss[i]@ == x);
        }
    }
    assert forall|x: Seq<char>| names_of(ss).insert(s@).contains(x) implies names_of(t).contains(
        x,
    ) by {
        if x == s@ {
            assert(t[ss.len() as int]@ == x);
        } else {
            let i = choose|i: int| 0 <= i < ss.len() && ss[i]@ == x;
            assert(t[i]@ == x);
        }
    }
}

/// A duplicate-free sequence holds exactly as many names as its length.
pub proof fn lemma_names_len(ss: Seq<String>)
    requires
        no_dup_names(ss),
    ensures
        names_of(ss).finite(),
        names_of(ss).len() == ss.len(),
    decreases ss.len(),
{
    if ss.len() == 0 {
        assert(names_of(ss) =~= Set::empty());
    } else {
        let head = ss.drop_last();
        lemma_names_len(head);
        assert(ss =~= head.push(ss.last()));
        lemma_names_push(head, ss.last());
        assert(!names_of(head).contains(ss.last()@));
    }
}

/// True iff some string of `v` holds the name `x`.
fn contains_name(v: &Vec<String>, x: &str) -> (r: bool)
    ensures
        r == names_of(v@).contains(x@),
{
    let n = v.len();
    let mut i: usize = 0;
    while i < n
        invariant
            n == v@.len(),
            i <= n,
            forall|j: int| 0 <= j < i ==> v@[j]@ != x@,
        decreases n - i,
    {
        if str_eq(v[i].as_str(), x) {
            return true;
        }
        i = i + 1;
    }
    false
}

/// A copy of `v` without the strings holding the name `x`.
fn remove_name(v: &Vec<String>, x: &str) -> (r: Vec<String>)
    requires
        no_dup_names(v@),
    ensures
        names_of(r@) =~= names_of(v@).remove(x@),
        no_dup_names(r@),
{
    let n = v.len();
    let mut r: Vec<String> = Vec::new();
    let mut i: usize = 0;
    while i < n
        invariant
            n == v@.len(),
            i <= n,
            no_dup_names(v@),
            names_of(r@) =~= names_of(v@.subrange(0, i as int)).remove(x@),
            no_dup_names(r@),
            forall|j: int| 0 <= j < r@.len() ==> exists|l: int|
                0 <= l < i && #[trigger] r@[j]@ == v@[l]@,
        decreases n - i,
    {
        let ghost prev = r@;
        if !str_eq(v[i].as_str(), x) {
            r.push(v[i].clone());
            proof {
                lemma_names_push(prev, v@[i as int]);
            }
        }
        proof {
            assert(v@.subrange(0, i + 1 as int) =~= v@.subrange(0, i as int).push(v@[i as int]));
            lemma_names_push(v@.subrange(0, i as int), v@[i as int]);
            assert(names_of(r@) =~= names_of(v@.subrange(0, i + 1 as int)).remove(x@));
        }
        i = i + 1;
    }
    proof {
        assert(v@.subrange(0, n as int) =~= v@);
    }
    r
}

/// All names of `v`, then those names of `w` that `v` does not hold.
fn union_names(v: Vec<String>, w: &Vec<String>) -> (r: Vec<String>)
    requires
        no_dup_names(v@),
        no_dup_names(w@),
    ensures
        names_of(r@) =~= names_of(v@).union(names_of(w@)),
        no_dup_names(r@),
{
    let n = w.len();
    let mut r = v;
    let mut i: usize = 0;
    while i < n
        invariant
            n == w@.len(),
            i <= n,
            no_dup_names(w@),
            names_of(r@) =~= names_of(v@).union(names_of(w@.subrange(0, i as int))),
            no_dup_names(r@),
        decreases n - i,
    {
        let ghost prev = r@;
        if !contains_name(&r, w[i].as_str()) {
            r.push(w[i].clone());
            proof {
                lemma_names_push(prev, w@[i as int]);
            }
        }
        proof {
            assert(w@.subrange(0, i + 1 as int) =~= w@.subrange(0, i as int).push(w@[i as int]));
            lemma_names_push(w@.subrange(0, i as int), w@[i as int]);
            assert(names_of(r@) =~= names_of(v@).union(names_of(w@.subrange(0, i + 1 as int))));
        }
        i = i + 1;
    }
    proof {
        assert(w@.subrange(0, n as int) =~= w@);
    }
    r
}

/// A lambda term: a variable, an abstraction `λparam.body`, or an
/// application `func arg`. Terms are immutable values; every transformation
/// builds a new tree.
#[derive(Debug, PartialEq)]
pub enum Expr {
    Var(String),
    Abs(String, Box<Expr>),
    Apl(Box<Expr>, Box<Expr>),
}

impl View for Expr {
    type V = TermS;

    open spec fn view(&self) -> TermS
        decreases self,
    {
        match self {
            Expr::Var(name) => TermS::Var(name@),
            Expr::Abs(param, body) => TermS::Abs(param@, Box::new((**body).view())),
            Expr::Apl(func, arg) => TermS::Apl(
                Box::new((**func).view()),
                Box::new((**arg).view()),
            ),
        }
    }
}

/// Builds a variable.
pub fn var(name: &str) -> (e: Expr)
    ensures
        e@ == TermS::Var(name@),
{
    Expr::Var(name.to_owned())
}

/// Builds an abstraction binding `param` in `body`.
pub fn abs(param: &str, body: Expr) -> (e: Expr)
    ensures
        e@ == TermS::Abs(param@, Box::new(body@)),
{
    Expr::Abs(param.to_owned(), Box::new(body))
}

/// Builds an application of `e1` to `e2`.
pub fn apl(e1: Expr, e2: Expr) -> (e: Expr)
    ensures
        e@ == TermS::Apl(Box::new(e1@), Box::new(e2@)),
{
    Expr::Apl(Box::new(e1), Box::new(e2))
}

impl Clone for Expr {
    fn clone(&self) -> (r: Self)
        ensures
            r@ == self@,
        decreases self,
    {
        match self {
            Expr::Var(name) => Expr::Var(name.clone()),
            Expr::Abs(param, body) => Expr::Abs(param.clone(), Box::new((**body).clone())),
            Expr::Apl(func, arg) => Expr::Apl(
                Box::new((**func).clone()),
                Box::new((**arg).clone()),
            ),
        }
    }
}

impl Expr {
    /// True iff `var` occurs free in the term.
    pub fn is_free_in(&self, var: &str) -> (r: bool)
        ensures
            r == free_in(self@, var@),
        decreases self,
    {
        match self {
            Expr::Var(name) => str_eq(name.as_str(), var),
            Expr::Abs(param, body) => !str_eq(param.as_str(), var) && body.is_free_in(var),
            Expr::Apl(func, arg) => func.is_free_in(var) || arg.is_free_in(var),
        }
    }

    /// The names that occur free in the term, each once, in no promised
    /// order.
    pub fn free_vars(&self) -> (r: Vec<String>)
        ensures
            names_of(r@) == free_names(self@),
            no_dup_names(r@),
        decreases self,
    {
        match self {
            Expr::Var(name) => {
                let mut r: Vec<String> = Vec::new();
                r.push(name.clone());
                proof {
                    lemma_names_push(Seq::empty(), *name);
                    assert(names_of(Seq::<String>::empty()) =~= Set::empty());
                    assert(names_of(r@) =~= free_names(self@));
                }
                r
            },
            Expr::Abs(param, body) => {
                let v = body.free_vars();
                let r = remove_name(&v, param.as_str());
                proof {
                    assert(names_of(r@) =~= free_names(self@));
                }
                r
            },
            Expr::Apl(func, arg) => {
                let v = func.free_vars();
                let w = arg.free_vars();
                let r = union_names(v, &w);
                proof {
                    assert(names_of(r@) =~= free_names(self@));
                }
                r
            },
        }
    }

    /// The names that some abstraction of the term binds, each once, in no
    /// promised order.
    pub fn bound_vars(&self) -> (r: Vec<String>)
        ensures
            names_of(r@) == bound_names(self@),
            no_dup_names(r@),
        decreases self,
    {
        match self {
            Expr::Var(_) => {
                let r: Vec<String> = Vec::new();
                proof {
                    assert(names_of(r@) =~= bound_names(self@));
                }
                r
            },
            Expr::Abs(param, body) => {
                let mut r = body.bound_vars();
                let ghost prev = r@;
                if !contains_name(&r, param.as_str()) {
                    r.push(param.clone());
                    proof {
                        lemma_names_push(prev, *param);
                    }
                }
                proof {
                    assert(names_of(r@) =~= bound_names(self@));
                }
                r
            },
            Expr::Apl(func, arg) => {
                let v = func.bound_vars();
                let w = arg.bound_vars();
                let r = union_names(v, &w);
                proof {
                    assert(names_of(r@) =~= bound_names(self@));
                }
                r
            },
        }
    }

    /// The first name derived from `hint` (`hint`, `hint_1`, `hint_2`, ...)
    /// that is not free in the term.
    pub fn fresh_var(&self, hint: &str) -> (r: String)
        ensures
            r@ == spec_fresh(self@, hint@),
            !free_in(self@, r@),
    {
        let fv = self.free_vars();
        let cap = fv.len();
        let ghost bound = free_names(self@).len();
        proof {
            lemma_names_len(fv@);
            lemma_free_names_finite(self@);
            assert(bound == cap as nat);
        }
        let mut k: usize = 0;
        let mut name = make_cand(hint, 0);
        loop
            invariant
                name@ == cand(hint@, k as nat),
                k <= cap,
                bound == cap as nat,
                bound == free_names(self@).len(),
                free_names(self@).finite(),
                forall|j: nat| j < k ==> free_in(self@, cand(hint@, j)),
            ensures
                name@ == spec_fresh(self@, hint@),
                !free_in(self@, name@),
            decreases bound - k,
        {
            if !self.is_free_in(name.as_str()) {
                proof {
                    assert(fresh_ok(self@, hint@, k as nat));
                    lemma_fresh_unique(self@, hint@, k as nat);
                }
                break;
            }
            proof {
                lemma_cand_free_bound(self@, hint@, k as nat);
            }
            k = k + 1;
            name = make_cand(hint, k);
        }
        name
    }

    /// One step of normal-order (leftmost-outermost) reduction: a redex is
    /// contracted at once, otherwise the leftmost reducible subterm is
    /// reduced, under binders too. An empty event list signals that the term
    /// is in normal form and came back unchanged.
    pub fn eval_step(&self) -> (r: (Expr, Vec<RedType>))
        ensures
            r.0@ == spec_step(self@).0,
            reds_of(r.1@) == spec_step(self@).1,
        decreases self,
    {
        match self {
            Expr::Var(_) => {
                proof {
                    assert(reds_of(Seq::<RedType>::empty()) =~= Seq::<RedS>::empty());
                }
                (self.clone(), Vec::new())
            },
            Expr::Abs(param, body) => {
                let (new_body, events) = body.eval_step();
                (Expr::Abs(param.clone(), Box::new(new_body)), events)
            },
            Expr::Apl(func, arg) => {
                let ghost goal = spec_step(self@);
                match &**func {
                    Expr::Abs(param, body) => {
                        let (contracted, mut events) = body.substitute(param.as_str(), arg);
                        let ghost subs = events@;
                        events.push(RedType::BetaReduction(param.clone()));
                        proof {
                            assert(reds_of(events@) =~= reds_of(subs).push(
                                RedS::Beta(param@),
                            )) by {
                                assert(events@ =~= subs.push(
                                    RedType::BetaReduction(*param),
                                ));
                            }
                        }
                        (contracted, events)
                    },
                    _ => {
                        let (new_func, mut events) = func.eval_step();
                        if events.len() > 0 {
                            let ghost inner = events@;
                            events.push(RedType::ContextualReduction("left".to_owned()));
                            let result = Expr::Apl(Box::new(new_func), Box::new((**arg).clone()));
                            proof {
                                assert(reds_of(inner).len() > 0);
                                assert(reds_of(events@) =~= reds_of(inner).push(
                                    RedS::Contextual("left"@),
                                ));
                                assert(result@ == goal.0 && reds_of(events@) =~= goal.1);
                            }
                            return (result, events);
                        }
                        let (new_arg, mut arg_events) = arg.eval_step();
                        if arg_events.len() > 0 {
                            let ghost inner = arg_events@;
                            arg_events.push(RedType::ContextualReduction("right".to_owned()));
                            let result = Expr::Apl(Box::new((**func).clone()), Box::new(new_arg));
                            proof {
                                assert(reds_of(inner).len() > 0);
                                assert(reds_of(arg_events@) =~= reds_of(inner).push(
                                    RedS::Contextual("right"@),
                                ));
                                assert(result@ == goal.0 && reds_of(arg_events@) =~= goal.1);
                            }
                            return (result, arg_events);
                        }
                        proof {
                            assert(reds_of(Seq::<RedType>::empty()) =~= Seq::<RedS>::empty());
                        }
                        (self.clone(), Vec::new())
                    },
                }
            },
        }
    }

    /// Iterated reduction: at most `limit` steps toward normal form, with
    /// the full ordered trace of the rewrite events taken. The result is in
    /// normal form unless the step budget ran out first; no event of the
    /// trace is the terminal marker.
    pub fn eval_full(&self, limit: usize) -> (r: (Expr, Vec<RedType>))
        ensures
            r.0@ == spec_eval(self@, limit as nat).0,
            reds_of(r.1@) == spec_eval(self@, limit as nat).1,
            is_normal_form(r.0@) || r.1@.len() >= limit,
            forall|i: int| 0 <= i < r.1@.len() ==> !(#[trigger] r.1@[i]@ is NoReduction),
    {
        let mut current = self.clone();
        let mut events: Vec<RedType> = Vec::new();
        let mut steps: usize = 0;
        loop
            invariant
                steps <= limit,
                events@.len() >= steps,
                spec_eval(self@, limit as nat).0 == spec_eval(
                    current@,
                    (limit - steps) as nat,
                ).0,
                spec_eval(self@, limit as nat).1 =~= reds_of(events@) + spec_eval(
                    current@,
                    (limit - steps) as nat,
                ).1,
                forall|i: int| 0 <= i < events@.len() ==> !(#[trigger] events@[i]@
                    is NoReduction),
            ensures
                steps <= limit,
                current@ == spec_eval(self@, limit as nat).0,
                reds_of(events@) =~= spec_eval(self@, limit as nat).1,
                is_normal_form(current@) || events@.len() >= limit,
                forall|i: int| 0 <= i < events@.len() ==> !(#[trigger] events@[i]@
                    is NoReduction),
            decreases limit - steps,
        {
            if steps >= limit || current.is_normal_form() {
                proof {
                    assert(spec_eval(current@, (limit - steps) as nat).1 =~= Seq::<RedS>::empty());
                    assert(reds_of(events@) + Seq::<RedS>::empty() =~= reds_of(events@));
                }
                break;
            }
            let ghost n = (limit - steps) as nat;
            let ghost before = current@;
            let (next, mut step_events) = current.eval_step();
            let ghost prev = events@;
            let ghost stepped = step_events@;
            proof {
                lemma_step_fixed_point(before);
                lemma_step_no_marker(before);
            }
            events.append(&mut step_events);
            current = next;
            steps = steps + 1;
            proof {
                assert(events@ =~= prev + stepped);
                assert(reds_of(prev + stepped) =~= reds_of(prev) + reds_of(stepped));
                assert(spec_eval(before, n).1 =~= spec_step(before).1 + spec_eval(
                    current@,
                    (n - 1) as nat,
                ).1);
                assert(reds_of(events@) + spec_eval(current@, (n - 1) as nat).1 =~= reds_of(prev)
                    + (reds_of(stepped) + spec_eval(current@, (n - 1) as nat).1));
                assert(reds_of(stepped).len() > 0);
                assert forall|i: int| 0 <= i < events@.len() implies !(#[trigger] events@[i]@
                    is NoReduction) by {
                    if i < prev.len() {
                        assert(events@[i] == prev[i]);
                    } else {
                        assert(events@[i] == stepped[i - prev.len()]);
                        assert(events@[i]@ == reds_of(stepped)[i - prev.len()]);
                    }
                }
            }
        }
        (current, events)
    }

    /// The parameters of the leading run of abstractions, outermost first,
    /// and the term under them.
    pub fn collect_abstractions(&self) -> (r: (Vec<String>, Expr))
        ensures
            r.0@.map_values(|s: String| s@) == abs_params(self@),
            r.1@ == abs_body(self@),
    {
        let mut params: Vec<String> = Vec::new();
        let mut current = self.clone();
        loop
            invariant
                abs_params(self@) =~= params@.map_values(|s: String| s@) + abs_params(current@),
                abs_body(self@) == abs_body(current@),
            ensures
                params@.map_values(|s: String| s@) =~= abs_params(self@),
                current@ == abs_body(self@),
            decreases term_size(current@),
        {
            let ghost prev_params = params@;
            let ghost prev = current@;
            match current {
                Expr::Abs(param, body) => {
                    let ghost p = param@;
                    params.push(param);
                    current = *body;
                    proof {
                        assert(params@ =~= prev_params.push(
                            params@[params@.len() - 1],
                        ));
                        assert(params@.map_values(|s: String| s@) =~= prev_params.map_values(
                            |s: String| s@,
                        ).push(p));
                        assert(abs_params(prev) =~= seq![p] + abs_params(current@));
                        assert(prev_params.map_values(|s: String| s@) + abs_params(prev)
                            =~= params@.map_values(|s: String| s@) + abs_params(current@));
                    }
                },
                other => {
                    current = other;
                    proof {
                        assert(abs_params(current@) =~= Seq::<Seq<char>>::empty());
                        assert(params@.map_values(|s: String| s@) + abs_params(current@)
                            =~= params@.map_values(|s: String| s@));
                    }
                    break;
                },
            }
        }
        (params, current)
    }

    /// The textual rendering of the term: `λ` before each binder (the whole
    /// comma-joined run of binders when `merge` is set), a dot before each
    /// body, application by juxtaposition with a side parenthesized when it
    /// is itself an application or an abstraction, colored by terminal
    /// escapes when `color` is set.
    #[verifier::rlimit(60)]
    pub fn fmt_with_config(&self, color: bool, ascii: bool, merge: bool) -> (r: String)
        ensures
            r@ == fmt_term(self@, color, merge),
        decreases term_size(self@),
    {
        proof {
            reveal_strlit("");
        }
        let reset: &str = if color {
            "\u{1b}[0m"
        } else {
            ""
        };
        let lambda_color: &str = if color {
            "\u{1b}[1m\u{1b}[38;5;2m"
        } else {
            ""
        };
        let name_color: &str = if color {
            "\u{1b}[1m\u{1b}[38;5;4m"
        } else {
            ""
        };
        let gray: &str = if color {
            "\u{1b}[0m\u{1b}[38;5;240m"
        } else {
            ""
        };
        match self {
            Expr::Var(name) => name.clone(),
            Expr::Abs(param, body) => {
                let mut out = String::new();
                out.append(lambda_color);
                out.append("λ");
                out.append(name_color);
                if merge {
                    let (params, inner) = self.collect_abstractions();
                    let mut joined = String::new();
                    let n = params.len();
                    let mut i: usize = 0;
                    while i < n
                        invariant
                            n == params@.len(),
                            i <= n,
                            joined@ == join_names(
                                params@.map_values(|s: String| s@).subrange(0, i as int),
                            ),
                        decreases n - i,
                    {
                        let ghost done = params@.map_values(|s: String| s@).subrange(0, i as int);
                        if i > 0 {
                            push_char(&mut joined, ',');
                        }
                        joined.append(params[i].as_str());
                        proof {
                            lemma_join_push(done, params@[i as int]@);
                            assert(params@.map_values(|s: String| s@).subrange(0, i + 1 as int)
                                =~= done.push(params@[i as int]@));
                        }
                        i = i + 1;
                    }
                    proof {
                        assert(params@.map_values(|s: String| s@).subrange(
                            0,
                            params@.len() as int,
                        ) =~= params@.map_values(|s: String| s@));
                    }
                    out.append(joined.as_str());
                    out.append(gray);
                    out.append(".");
                    out.append(reset);
                    proof {
                        lemma_abs_body_size(body@);
                    }
                    let rendered = inner.fmt_with_config(color, ascii, merge);
                    out.append(rendered.as_str());
                    proof {
                        assert(out@ =~= fmt_term(self@, color, merge));
                    }
                    out
                } else {
                    out.append(param.as_str());
                    out.append(gray);
                    out.append(".");
                    out.append(reset);
                    let rendered = body.fmt_with_config(color, ascii, merge);
                    out.append(rendered.as_str());
                    proof {
                        assert(out@ =~= fmt_term(self@, color, merge));
                    }
                    out
                }
            },
            Expr::Apl(func, arg) => {
                let mut out = String::new();
                let lhs = func.fmt_with_config(color, ascii, merge);
                let needs_parens_l = match &**func {
                    Expr::Apl(_, _) | Expr::Abs(_, _) => true,
                    _ => false,
                };
                if needs_parens_l {
                    out.append(gray);
                    out.append("(");
                    out.append(reset);
                    out.append(lhs.as_str());
                    out.append(gray);
                    out.append(")");
                    out.append(reset);
                } else {
                    out.append(lhs.as_str());
                }
                out.append(" ");
                let rhs = arg.fmt_with_config(color, ascii, merge);
                let needs_parens_r = match &**arg {
                    Expr::Apl(_, _) | Expr::Abs(_, _) => true,
                    _ => false,
                };
                if needs_parens_r {
                    out.append(gray);
                    out.append("(");
                    out.append(reset);
                    out.append(rhs.as_str());
                    out.append(gray);
                    out.append(")");
                    out.append(reset);
                } else {
                    out.append(rhs.as_str());
                }
                proof {
                    assert(out@ =~= fmt_term(self@, color, merge));
                }
                out
            },
        }
    }

    /// Splits a name into its part before the trailing decimal digits and
    /// the value of those digits. No digits, or a value beyond `u32`, gives
    /// nothing.
    pub fn split_name_number(name: &str) -> (r: Option<(String, u32)>)
        ensures
            match r {
                Some(p) => {
                    &&& split_suffix(name@).len() > 0
                    &&& val_of(split_suffix(name@)) <= u32::MAX
                    &&& p.0@ == split_base(name@)
                    &&& p.1 as nat == val_of(split_suffix(name@))
                },
                None => split_suffix(name@).len() == 0 || val_of(split_suffix(name@))
                    > u32::MAX,
            },
    {
        let chars = chars_of(name);
        let n = chars.len();
        let ghost keep = split_base(name@).len();
        let mut cut: usize = n;
        loop
            invariant
                cut <= n,
                n == name@.len(),
                chars@ == name@,
                keep == split_base(name@).len(),
                forall|j: int| cut <= j < n ==> is_digit_char(name@[j]),
            ensures
                cut == keep,
            decreases cut,
        {
            proof {
                lemma_split_parts(name@);
                assert(keep <= cut) by {
                    if cut < keep {
                        assert(is_digit_char(name@[keep - 1]));
                        assert(name@[keep - 1] == split_base(name@).last());
                    }
                }
            }
            if cut == 0 {
                break;
            }
            if !char_is_digit(chars[cut - 1]) {
                proof {
                    if cut > keep {
                        assert(name@[cut - 1] == split_suffix(name@)[cut - 1 - keep]);
                    }
                }
                break;
            }
            proof {
                if cut == keep {
                    assert(!is_digit_char(split_base(name@).last()));
                    assert(name@[keep - 1] == split_base(name@).last());
                }
            }
            cut = cut - 1;
        }
        if cut == n {
            proof {
                lemma_split_parts(name@);
            }
            return None;
        }
        let mut acc: u64 = 0;
        let mut too_big = false;
        let mut i: usize = cut;
        while i < n
            invariant
                cut <= i <= n,
                n == name@.len(),
                chars@ == name@,
                keep == split_base(name@).len(),
                cut == keep,
                forall|j: int| cut <= j < n ==> is_digit_char(name@[j]),
                !too_big ==> acc as nat == val_of(name@.subrange(cut as int, i as int)) && acc
                    <= u32::MAX as u64,
                too_big ==> val_of(name@.subrange(cut as int, i as int)) > u32::MAX,
            decreases n - i,
        {
            let d = char_digit_val(chars[i]);
            proof {
                lemma_val_of_push(name@.subrange(cut as int, i as int), name@[i as int]);
                assert(name@.subrange(cut as int, i + 1 as int) =~= name@.subrange(
                    cut as int,
                    i as int,
                ).push(name@[i as int]));
            }
            if !too_big {
                let next = acc * 10 + (d as u64);
                if next > (u32::MAX as u64) {
                    too_big = true;
                } else {
                    acc = next;
                }
            }
            i = i + 1;
        }
        proof {
            lemma_split_parts(name@);
            assert(name@.subrange(cut as int, n as int) =~= split_suffix(name@));
        }
        if too_big {
            return None;
        }
        let base = string_from_chars(&chars, 0, cut);
        proof {
            assert(base@ =~= split_base(name@));
        }
        Some((base, acc as u32))
    }

    /// Renames the free occurrences of `from` to `to`, stopping at a binder
    /// named `from`; no freshness check is made.
    pub fn rename_var(&self, from: &str, to: &str) -> (r: Expr)
        ensures
            r@ == spec_rename(self@, from@, to@),
        decreases self,
    {
        match self {
            Expr::Var(name) => {
                if str_eq(name.as_str(), from) {
                    Expr::Var(to.to_owned())
                } else {
                    self.clone()
                }
            },
            Expr::Abs(param, body) => {
                if str_eq(param.as_str(), from) {
                    self.clone()
                } else {
                    Expr::Abs(param.clone(), Box::new(body.rename_var(from, to)))
                }
            },
            Expr::Apl(func, arg) => Expr::Apl(
                Box::new(func.rename_var(from, to)),
                Box::new(arg.rename_var(from, to)),
            ),
        }
    }

    /// The canonicalizer: strips mechanically generated numeric name
    /// suffixes where its heuristics allow, reporting each renaming as an
    /// alpha event.
    pub fn simplify_numbered_vars(&self) -> (r: (Expr, Vec<RedType>))
        ensures
            r.0@ == spec_simplify(self@).0,
            reds_of(r.1@) == spec_simplify(self@).1,
        decreases term_size(self@),
    {
        match self {
            Expr::Var(name) => {
                match Self::split_name_number(name.as_str()) {
                    Some((base, num)) => {
                        if num == 1 {
                            let trimmed = trim_trailing_underscores(base.as_str());
                            let mut events: Vec<RedType> = Vec::new();
                            events.push(
                                RedType::AlphaConversion(name.clone(), trimmed.clone()),
                            );
                            proof {
                                assert(reds_of(events@) =~= seq![
                                    RedS::Alpha(name@, trimmed@),
                                ]);
                            }
                            (Expr::Var(trimmed), events)
                        } else if num > 1 {
                            let mut lower = base;
                            push_char(&mut lower, '_');
                            crate::ast::names::push_decimal(&mut lower, (num - 1) as usize);
                            proof {
                                assert(lower@ =~= split_base(name@) + seq!['_'] + digits_of(
                                    (num - 1) as nat,
                                ));
                            }
                            if self.is_free_in(lower.as_str()) {
                                let mut events: Vec<RedType> = Vec::new();
                                events.push(
                                    RedType::AlphaConversion(name.clone(), lower.clone()),
                                );
                                proof {
                                    assert(reds_of(events@) =~= seq![
                                        RedS::Alpha(name@, lower@),
                                    ]);
                                }
                                (Expr::Var(lower), events)
                            } else {
                                proof {
                                    assert(reds_of(Seq::<RedType>::empty())
                                        =~= Seq::<RedS>::empty());
                                }
                                (self.clone(), Vec::new())
                            }
                        } else {
                            proof {
                                assert(reds_of(Seq::<RedType>::empty())
                                    =~= Seq::<RedS>::empty());
                            }
                            (self.clone(), Vec::new())
                        }
                    },
                    None => {
                        proof {
                            assert(reds_of(Seq::<RedType>::empty()) =~= Seq::<RedS>::empty());
                        }
                        (self.clone(), Vec::new())
                    },
                }
            },
            Expr::Abs(param, body) => {
                let ghost goal = spec_simplify(self@);
                if let Some((base, num)) = Self::split_name_number(param.as_str()) {
                    if num == 1 {
                        let trimmed = trim_trailing_underscores(base.as_str());
                        if !body.is_free_in(trimmed.as_str()) {
                            let renamed = body.rename_var(param.as_str(), trimmed.as_str());
                            proof {
                                lemma_rename_size(body@, param@, trimmed@);
                            }
                            let (new_body, mut rest) = renamed.simplify_numbered_vars();
                            let mut events: Vec<RedType> = Vec::new();
                            events.push(
                                RedType::AlphaConversion(param.clone(), trimmed.clone()),
                            );
                            let ghost alpha_only = events@;
                            let ghost rests = rest@;
                            events.append(&mut rest);
                            let result = Expr::Abs(trimmed, Box::new(new_body));
                            proof {
                                assert(events@ =~= alpha_only + rests);
                                assert(reds_of(alpha_only + rests) =~= reds_of(alpha_only)
                                    + reds_of(rests));
                                assert(reds_of(alpha_only) =~= seq![
                                    RedS::Alpha(param@, trimmed@),
                                ]);
                                assert(result@ == goal.0 && reds_of(events@) =~= goal.1);
                            }
                            return (result, events);
                        }
                    }
                }
                let (new_body, events) = body.simplify_numbered_vars();
                let result = Expr::Abs(param.clone(), Box::new(new_body));
                proof {
                    assert(result@ == goal.0 && reds_of(events@) == goal.1);
                }
                (result, events)
            },
            Expr::Apl(func, arg) => {
                let ghost goal = spec_simplify(self@);
                let (new_func, mut events) = func.simplify_numbered_vars();
                let (new_arg, mut arg_events) = arg.simplify_numbered_vars();
                let ghost func_only = events@;
                let ghost args = arg_events@;
                events.append(&mut arg_events);
                let result = Expr::Apl(Box::new(new_func), Box::new(new_arg));
                proof {
                    assert(events@ =~= func_only + args);
                    assert(reds_of(func_only + args) =~= reds_of(func_only) + reds_of(args));
                    assert(result@ == goal.0 && reds_of(events@) =~= goal.1);
                }
                (result, events)
            },
        }
    }

    /// True iff the term is an application whose function position is an
    /// abstraction.
    pub fn is_redex(&self) -> (r: bool)
        ensures
            r == is_redex(self@),
    {
        match self {
            Expr::Apl(func, _) => match &**func {
                Expr::Abs(_, _) => {
                    proof {
                        assert((**func).view() is Abs);
                    }
                    true
                },
                _ => false,
            },
            _ => false,
        }
    }

    /// Replaces every free occurrence of `var` in the term by `expr`,
    /// renaming binders that `expr`'s free names endanger, and reports the
    /// renamings as alpha events.
    pub fn substitute(&self, var: &str, expr: &Expr) -> (r: (Expr, Vec<RedType>))
        ensures
            r.0@ == spec_subst(self@, var@, expr@).0,
            reds_of(r.1@) == spec_subst(self@, var@, expr@).1,
        decreases term_size(self@),
    {
        proof {
            lemma_subst_defined(self@, var@, expr@, term_size(self@));
        }
        match self {
            Expr::Var(name) => {
                let r = if str_eq(name.as_str(), var) {
                    expr.clone()
                } else {
                    self.clone()
                };
                proof {
                    assert(reds_of(Seq::<RedType>::empty()) =~= Seq::<RedS>::empty());
                }
                (r, Vec::new())
            },
            Expr::Abs(param, body) => {
                let ghost goal = spec_subst(self@, var@, expr@);
                let ghost less = (term_size(self@) - 1) as nat;
                proof {
                    assert(less == term_size(body@));
                }
                if str_eq(param.as_str(), var) {
                    proof {
                        assert(reds_of(Seq::<RedType>::empty()) =~= Seq::<RedS>::empty());
                    }
                    (self.clone(), Vec::new())
                } else if expr.is_free_in(param.as_str()) {
                    let fresh = body.fresh_var(param.as_str());
                    let replacement = Expr::Var(fresh.clone());
                    let renamed = body.substitute(param.as_str(), &replacement).0;
                    proof {
                        lemma_subst_defined(body@, param@, TermS::Var(fresh@), term_size(body@));
                        lemma_subst_var_size(body@, param@, fresh@, term_size(body@));
                        assert(term_size(renamed@) == term_size(body@));
                    }
                    let (new_body, mut sub_events) = renamed.substitute(var, expr);
                    let mut events: Vec<RedType> = Vec::new();
                    events.push(RedType::AlphaConversion(param.clone(), fresh.clone()));
                    let ghost alpha_only = events@;
                    let ghost subs = sub_events@;
                    events.append(&mut sub_events);
                    let result = Expr::Abs(fresh, Box::new(new_body));
                    proof {
                        assert(reds_of(alpha_only) =~= seq![RedS::Alpha(param@, fresh@)]);
                        assert(reds_of(events@) =~= reds_of(alpha_only) + reds_of(subs)) by {
                            assert(events@ =~= alpha_only + subs);
                            assert(reds_of(alpha_only + subs) =~= reds_of(alpha_only) + reds_of(
                                subs,
                            ));
                        }
                        assert(result@ == goal.0 && reds_of(events@) =~= goal.1);
                    }
                    (result, events)
                } else {
                    let (new_body, events) = body.substitute(var, expr);
                    let result = Expr::Abs(param.clone(), Box::new(new_body));
                    proof {
                        assert(result@ == goal.0 && reds_of(events@) == goal.1);
                    }
                    (result, events)
                }
            },
            Expr::Apl(func, arg) => {
                let ghost goal = spec_subst(self@, var@, expr@);
                let ghost less = (term_size(self@) - 1) as nat;
                proof {
                    lemma_subst_defined(func@, var@, expr@, less);
                    lemma_subst_fuel(func@, var@, expr@, less, term_size(func@));
                    lemma_subst_defined(arg@, var@, expr@, less);
                    lemma_subst_fuel(arg@, var@, expr@, less, term_size(arg@));
                }
                let (new_func, mut events) = func.substitute(var, expr);
                let (new_arg, mut arg_events) = arg.substitute(var, expr);
                let ghost func_only = events@;
                let ghost args = arg_events@;
                events.append(&mut arg_events);
                let result = Expr::Apl(Box::new(new_func), Box::new(new_arg));
                proof {
                    assert(reds_of(events@) =~= reds_of(func_only) + reds_of(args)) by {
                        assert(events@ =~= func_only + args);
                        assert(reds_of(func_only + args) =~= reds_of(func_only) + reds_of(args));
                    }
                    assert(result@ == goal.0 && reds_of(events@) =~= goal.1);
                }
                (result, events)
            },
        }
    }

    /// True iff no redex occurs anywhere in the term.
    pub fn is_normal_form(&self) -> (r: bool)
        ensures
            r == is_normal_form(self@),
        decreases self,
    {
        match self {
            Expr::Var(_) => true,
            Expr::Abs(_, body) => body.is_normal_form(),
            Expr::Apl(func, arg) => {
                !self.is_redex() && func.is_normal_form() && arg.is_normal_form()
            },
        }
    }
}

} // verus!
