//! The choice of the extraction rules that apply to an element: among its
//! attributes, those with the FTML prefix are matched against the rules,
//! in the order of the rules, and the rules chosen are run in turn.
use vstd::prelude::*;
use crate::extractor::{lemma_lfind, lfind};
use crate::text::{chars_of, has_prefix_at};

verus! {

/// The attribute keys of `keys` that start with `prefix`, in order.
pub open spec fn prefixed(keys: Seq<Seq<char>>, prefix: Seq<char>) -> Seq<Seq<char>>
    decreases keys.len(),
{
    if keys.len() == 0 {
        Seq::empty()
    } else {
        let rest = prefixed(keys.drop_last(), prefix);
        if prefix.is_prefix_of(keys.last()) {
            rest.push(keys.last())
        } else {
            rest
        }
    }
}

/// The rules that apply, by index, and the keys no rule took: each rule in
/// turn takes the first remaining key equal to its attribute.
pub open spec fn selection(keys: Seq<Seq<char>>, rules: Seq<Seq<char>>) -> (Seq<int>, Seq<Seq<char>>)
    decreases rules.len(),
{
    if rules.len() == 0 {
        (Seq::empty(), keys)
    } else {
        let (chosen, rest) = selection(keys, rules.drop_last());
        let j = lfind(rest, |s: Seq<char>| s == rules.last());
        if j >= 0 {
            (chosen.push(rules.len() - 1), rest.remove(j))
        } else {
            (chosen, rest)
        }
    }
}

/// The views of a list of strings.
pub open spec fn string_views(v: Seq<String>) -> Seq<Seq<char>> {
    v.map_values(|s: String| s@)
}

/// The rules that apply to an element and its FTML attributes that no rule
/// knows.
pub struct RuleSelection {
    pub rules: Vec<usize>,
    pub unknown: Vec<String>,
}

/// The rules among `rules` (by their attributes) that apply to an element
/// with the attribute keys `keys`, and the FTML attributes, those that
/// start with `prefix`, that no rule knows.
pub fn select_rules(keys: &Vec<String>, prefix: &str, rules: &Vec<String>) -> (r: RuleSelection)
    ensures
        ({
            let (chosen, rest) = selection(prefixed(string_views(keys@), prefix@), string_views(rules@));
            &&& r.rules@.map_values(|i: usize| i as int) == chosen
            &&& string_views(r.unknown@) == rest
        }),
{
    let p = chars_of(prefix);
    let mut stripped: Vec<String> = Vec::new();
    let mut i: usize = 0;
    assert(keys@.take(0) =~= Seq::<String>::empty());
    while i < keys.len()
        invariant
            p@ == prefix@,
            i <= keys@.len(),
            string_views(stripped@) == prefixed(string_views(keys@.take(i as int)), prefix@),
        decreases keys@.len() - i,
    {
        let k = chars_of(keys[i].as_str());
        proof {
            assert(string_views(keys@.take(i + 1)) =~= string_views(keys@.take(i as int)).push(keys@[i as int]@));
            assert(string_views(keys@.take(i + 1)).drop_last() =~= string_views(keys@.take(i as int)));
            assert(k@.subrange(0, k@.len() as int) =~= k@);
        }
        if has_prefix_at(&k, 0, k.len(), &p) {
            stripped.push(keys[i].clone());
            proof {
                assert(string_views(stripped@) =~= prefixed(string_views(keys@.take(i + 1)), prefix@));
            }
        }
        i = i + 1;
    }
    assert(keys@.take(i as int) =~= keys@);
    let mut chosen: Vec<usize> = Vec::new();
    let mut ri: usize = 0;
    let ghost keys_v = string_views(stripped@);
    assert(rules@.take(0) =~= Seq::<String>::empty());
    while ri < rules.len()
        invariant
            ri <= rules@.len(),
            keys_v == prefixed(string_views(keys@), prefix@),
            ({
                let (c, rest) = selection(keys_v, string_views(rules@.take(ri as int)));
                &&& chosen@.map_values(|i: usize| i as int) == c
                &&& string_views(stripped@) == rest
            }),
        decreases rules@.len() - ri,
    {
        let ghost rv = string_views(rules@.take(ri + 1));
        proof {
            assert(rv =~= string_views(rules@.take(ri as int)).push(rules@[ri as int]@));
            assert(rv.drop_last() =~= string_views(rules@.take(ri as int)));
        }
        let ghost pr = |s: Seq<char>| s == rules@[ri as int]@;
        let ghost sv = string_views(stripped@);
        let mut j: usize = 0;
        let mut found = false;
        while j < stripped.len()
            invariant_except_break
                !found,
            invariant
                pr == (|s: Seq<char>| s == rules@[ri as int]@),
                sv == string_views(stripped@),
                ri < rules@.len(),
                j <= stripped@.len(),
                forall|m: int| 0 <= m < j ==> !pr(#[trigger] sv[m]),
            ensures
                found ==> j < stripped@.len() && pr(sv[j as int]),
                !found ==> j == stripped@.len(),
            decreases stripped@.len() - j,
        {
            if stripped[j] == rules[ri] {
                found = true;
                break;
            }
            j = j + 1;
        }
        if found {
            proof {
                lemma_lfind(sv, pr, j as int);
            }
            stripped.remove(j);
            chosen.push(ri);
            proof {
                assert(string_views(stripped@) =~= sv.remove(j as int));
                assert(chosen@.map_values(|i: usize| i as int) =~= selection(keys_v, string_views(rules@.take(ri as int))).0.push(ri as int));
            }
        } else {
            proof {
                lemma_lfind(sv, pr, -1);
            }
        }
        ri = ri + 1;
    }
    assert(rules@.take(ri as int) =~= rules@);
    RuleSelection { rules: chosen, unknown: stripped }
}


/// The rules among `rest` whose attributes are not among `dropped`, in
/// order.
pub open spec fn keep_rules(rest: Seq<String>, dropped: Seq<String>) -> Seq<String>
    decreases rest.len(),
{
    if rest.len() == 0 {
        rest
    } else {
        let k = keep_rules(rest.drop_last(), dropped);
        if string_views(dropped).contains(rest.last()@) {
            k
        } else {
            k.push(rest.last())
        }
    }
}

/// Keeping rules never adds any.
pub proof fn lemma_keep_rules_len(rest: Seq<String>, dropped: Seq<String>)
    ensures
        keep_rules(rest, dropped).len() <= rest.len(),
    decreases rest.len(),
{
    if rest.len() > 0 {
        lemma_keep_rules_len(rest.drop_last(), dropped);
    }
}

/// What running a rule gives: the state after it, the element it opens,
/// if any, and the attributes of the rules still to run that it drops.
pub type RuleStep<S, R> = (S, Option<R>, Vec<String>);

/// A step of a run of rules: the rules still to run before it (the first
/// of which it runs), the state before it, and what the rule gave.
pub type RunStep<S, R> = (Seq<String>, S, RuleStep<S, R>);

/// The rules still to run after the step `x`: those after the rule it ran,
/// but those it dropped.
pub open spec fn todo_after<S, R>(x: RunStep<S, R>) -> Seq<String> {
    keep_rules(x.0.drop_first(), x.2.2@)
}

/// `run` is a run of `call` from the state `s0` over the rules `todo`:
/// each step runs the first rule still to run on the state that the step
/// before it left, and the run ends when no rule is left.
pub open spec fn rules_ran<S, R, C: Fn(S, String) -> RuleStep<S, R>>(call: C, s0: S, todo: Seq<String>, run: Seq<RunStep<S, R>>) -> bool {
    &&& forall|i: int|
        0 <= i < run.len() ==> (#[trigger] run[i]).0.len() > 0 && call_ensures(call, (run[i].1, run[i].0[0]), run[i].2)
    &&& forall|i: int| 0 <= i < run.len() - 1 ==> (#[trigger] run[i + 1]).1 == run[i].2.0 && run[i + 1].0 == todo_after(run[i])
    &&& if run.len() == 0 {
        todo.len() == 0
    } else {
        run[0].0 == todo && run[0].1 == s0 && todo_after(run.last()).len() == 0
    }
}

/// The state at the end of a run from `s0`.
pub open spec fn run_state<S, R>(s0: S, run: Seq<RunStep<S, R>>) -> S {
    if run.len() == 0 {
        s0
    } else {
        run.last().2.0
    }
}

/// The elements the steps of a run open, in order.
pub open spec fn opened<S, R>(run: Seq<RunStep<S, R>>) -> Seq<R>
    decreases run.len(),
{
    if run.len() == 0 {
        Seq::empty()
    } else {
        opened(run.drop_last()) + match run.last().2.1 {
            Some(e) => seq![e],
            None => Seq::empty(),
        }
    }
}

/// Running the rules `todo` with `call` from the state `s0` gives `r`:
/// the state after the last step, and the elements opened, none if no
/// rule opened one.
pub open spec fn rules_applied<S, R, C: Fn(S, String) -> RuleStep<S, R>>(call: C, s0: S, todo: Seq<String>, r: (S, Option<Vec<R>>)) -> bool {
    exists|run: Seq<RunStep<S, R>>|
        {
            &&& #[trigger] rules_ran(call, s0, todo, run)
            &&& r.0 == run_state(s0, run)
            &&& match r.1 {
                Some(v) => v@ == opened(run) && opened(run).len() > 0,
                None => opened(run).len() == 0,
            }
        }
}

/// The rules of `rest` whose attributes are not among `dropped`.
fn keep_exec(rest: Vec<String>, dropped: &Vec<String>) -> (r: Vec<String>)
    ensures
        r@ == keep_rules(rest@, dropped@),
{
    let ghost all = rest@;
    let mut rest = rest;
    let mut out: Vec<String> = Vec::new();
    let mut i: usize = 0;
    assert(all.take(0) =~= Seq::<String>::empty());
    assert(all.len() == rest.len());
    while rest.len() > 0
        invariant
            rest@ == all.skip(i as int),
            i + rest@.len() == all.len(),
            all.len() <= usize::MAX,
            out@ == keep_rules(all.take(i as int), dropped@),
        decreases rest@.len(),
    {
        let k = rest.remove(0);
        let mut found = false;
        let mut j: usize = 0;
        while j < dropped.len()
            invariant
                j <= dropped@.len(),
                !found ==> forall|m: int| 0 <= m < j ==> dropped@[m]@ != k@,
                found ==> string_views(dropped@).contains(k@),
            decreases dropped@.len() - j,
        {
            if dropped[j] == k {
                found = true;
                assert(string_views(dropped@)[j as int] == k@);
            }
            j = j + 1;
        }
        proof {
            if !found && string_views(dropped@).contains(k@) {
                let m = choose|m: int| 0 <= m < string_views(dropped@).len() && string_views(dropped@)[m] == k@;
                assert(dropped@[m]@ == k@);
            }
            let t = all.take(i + 1);
            assert(t.drop_last() =~= all.take(i as int));
            assert(t.last() == all[i as int]);
            assert(k == all[i as int]);
            assert(rest@ =~= all.skip(i + 1));
        }
        if !found {
            out.push(k);
        }
        i = i + 1;
    }
    assert(all.take(i as int) =~= all);
    out
}

/// Which rules `selection` chooses: indices of `rules`.
proof fn lemma_selection_bounds(keys: Seq<Seq<char>>, rules: Seq<Seq<char>>)
    ensures
        forall|m: int| 0 <= m < selection(keys, rules).0.len() ==> 0 <= #[trigger] selection(keys, rules).0[m] < rules.len(),
    decreases rules.len(),
{
    if rules.len() > 0 {
        lemma_selection_bounds(keys, rules.drop_last());
        let (c, rest) = selection(keys, rules.drop_last());
        let j = lfind(rest, |x: Seq<char>| x == rules.last());
        assert(selection(keys, rules).0 == if j >= 0 {
            c.push(rules.len() - 1)
        } else {
            c
        });
        assert forall|m: int| 0 <= m < selection(keys, rules).0.len() implies 0 <= #[trigger] selection(keys, rules).0[m]
            < rules.len() by {
            if m < c.len() {
                assert(selection(keys, rules).0[m] == c[m]);
            }
        }
    }
}

/// Runs the rules `todo` in turn with `call`: each takes the state, gives
/// the state after it and maybe an element, and may drop rules still to
/// run. Gives the last state and the elements opened, if any.
pub fn do_rules<S, R, C: Fn(S, String) -> RuleStep<S, R>>(state: S, todo: Vec<String>, call: &C) -> (r: (S, Option<Vec<R>>))
    requires
        forall|s: S, k: String| call_requires(*call, (s, k)),
    ensures
        rules_applied(*call, state, todo@, r),
{
    let ghost s0 = state;
    let ghost todo0 = todo@;
    let mut s = state;
    let mut todo = todo;
    let mut ret: Vec<R> = Vec::new();
    let ghost mut run: Seq<RunStep<S, R>> = Seq::empty();
    while todo.len() > 0
        invariant
            forall|s: S, k: String| call_requires(*call, (s, k)),
            forall|i: int|
                0 <= i < run.len() ==> (#[trigger] run[i]).0.len() > 0 && call_ensures(*call, (run[i].1, run[i].0[0]), run[i].2),
            forall|i: int| 0 <= i < run.len() - 1 ==> (#[trigger] run[i + 1]).1 == run[i].2.0 && run[i + 1].0 == todo_after(run[i]),
            run.len() == 0 ==> todo@ == todo0 && s == s0,
            run.len() > 0 ==> run[0].0 == todo0 && run[0].1 == s0 && todo@ == todo_after(run.last()) && s == run.last().2.0,
            ret@ == opened(run),
        decreases todo@.len(),
    {
        let ghost t0 = todo@;
        let ghost st0 = s;
        let k = todo.remove(0);
        assert(k == t0[0]);
        let res = call(s, k);
        let ghost g = res;
        let (s2, o, dropped) = res;
        match o {
            Some(v) => {
                ret.push(v);
            },
            None => {},
        }
        proof {
            assert(todo@ =~= t0.drop_first());
            lemma_keep_rules_len(todo@, dropped@);
        }
        todo = keep_exec(todo, &dropped);
        s = s2;
        proof {
            let x: RunStep<S, R> = (t0, st0, g);
            let old_run = run;
            run = run.push(x);
            assert(run.drop_last() =~= old_run);
            assert(run[old_run.len() as int] == x);
            assert forall|i: int| 0 <= i < run.len() implies (#[trigger] run[i]).0.len() > 0 && call_ensures(
                *call,
                (run[i].1, run[i].0[0]),
                run[i].2,
            ) by {
                if i < old_run.len() {
                    assert(run[i] == old_run[i]);
                }
            }
            assert forall|i: int| 0 <= i < run.len() - 1 implies (#[trigger] run[i + 1]).1 == run[i].2.0 && run[i + 1].0
                == todo_after(run[i]) by {
                if i + 1 < old_run.len() {
                    assert(run[i + 1] == old_run[i + 1]);
                    assert(run[i] == old_run[i]);
                } else {
                    assert(run[i] == old_run[i]);
                }
            }
            assert(ret@ =~= opened(run));
        }
    }
    proof {
        assert(rules_ran(*call, s0, todo0, run));
    }
    if ret.len() == 0 {
        (s, None)
    } else {
        (s, Some(ret))
    }
}

/// Applies the rules `rules` (by their attributes) to an element with the
/// attribute keys `keys`: the rules chosen as `select_rules` chooses them
/// are run in turn with `call`, as `do_rules` runs them. Without a rule
/// that applies, no rule runs and nothing is opened.
pub fn applicable_rules<S, R, C: Fn(S, String) -> RuleStep<S, R>>(
    keys: &Vec<String>,
    prefix: &str,
    rules: &Vec<String>,
    state: S,
    call: &C,
) -> (r: (S, Option<Vec<R>>))
    requires
        forall|s: S, k: String| call_requires(*call, (s, k)),
    ensures
        ({
            let chosen = selection(prefixed(string_views(keys@), prefix@), string_views(rules@)).0;
            if chosen.len() == 0 {
                r.0 == state && r.1 is None
            } else {
                rules_applied(*call, state, chosen.map_values(|i: int| rules@[i]), r)
            }
        }),
{
    let sel = select_rules(keys, prefix, rules);
    let ghost chosen = selection(prefixed(string_views(keys@), prefix@), string_views(rules@)).0;
    if sel.rules.len() == 0 {
        return (state, None);
    }
    let mut names: Vec<String> = Vec::new();
    let mut i: usize = 0;
    proof {
        lemma_selection_bounds(prefixed(string_views(keys@), prefix@), string_views(rules@));
    }
    assert(names@ =~= chosen.take(0).map_values(|x: int| rules@[x]));
    while i < sel.rules.len()
        invariant
            i <= sel.rules@.len(),
            sel.rules@.map_values(|x: usize| x as int) == chosen,
            forall|m: int| 0 <= m < chosen.len() ==> 0 <= #[trigger] chosen[m] < rules@.len(),
            names@ == chosen.take(i as int).map_values(|x: int| rules@[x]),
        decreases sel.rules@.len() - i,
    {
        assert(chosen[i as int] == sel.rules@[i as int] as int);
        let n = rules[sel.rules[i]].clone();
        names.push(n);
        assert(names@ =~= chosen.take(i + 1).map_values(|x: int| rules@[x]));
        i = i + 1;
    }
    assert(chosen.take(i as int) =~= chosen);
    do_rules(state, names, call)
}

} // verus!
