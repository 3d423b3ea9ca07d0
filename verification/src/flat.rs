//! Flat models: each class's components sorted into constants, states,
//! discrete variables, inputs, outputs and parameters, with its state
//! equations `der(x) = f` gathered as the right-hand sides `f`.
use vstd::prelude::*;
use crate::ast::{Causality, ClassDefinition, Component, Equation, Expression, StoredDefinition, Subscript, Token, Variability};
use crate::blt::der_call_target;
use crate::structural::{copy_expression, copy_subscripts, same_expr, same_subs};

verus! {

/// A component of a flat model.
#[derive(Debug)]
pub struct FlatComponent {
    pub name: String,
    /// Its start value (a copy of the declaration's).
    pub start: Expression,
    /// Its dimensions (copies of the declaration's).
    pub array_subscripts: Vec<Subscript>,
}

/// A flat model.
#[derive(Debug)]
pub struct FlatModel {
    pub name: String,
    /// The class's description: its description strings, one after another.
    pub description: String,
    /// Constants.
    pub c: Vec<FlatComponent>,
    /// States: continuous variables differentiated by a state equation.
    pub x: Vec<FlatComponent>,
    /// Discrete variables.
    pub z: Vec<FlatComponent>,
    /// Inputs.
    pub u: Vec<FlatComponent>,
    /// Other continuous variables.
    pub y: Vec<FlatComponent>,
    /// Parameters.
    pub p: Vec<FlatComponent>,
    /// The right-hand sides of the state equations, in order.
    pub ode: Vec<Expression>,
}

/// The state a state equation `der(x) = f` differentiates, if the
/// equation is one.
pub open spec fn state_of(eq: Equation) -> Option<Seq<char>> {
    match eq {
        Equation::Simple { lhs, .. } => match lhs {
            Expression::FunctionCall { comp, args } => der_call_target(comp, args@),
            _ => None,
        },
        _ => None,
    }
}

/// Whether `x` is a state of the class: some equation of it is `der(x) = f`.
pub open spec fn is_state(c: ClassDefinition, x: Seq<char>) -> bool {
    exists|i: int| 0 <= i < c.equations@.len() && #[trigger] state_of(c.equations@[i]) == Some(x)
}

/// The right-hand sides of the state equations among `eqs`, in order.
pub open spec fn ode_rhs(eqs: Seq<Equation>) -> Seq<Expression>
    decreases eqs.len(),
{
    if eqs.len() == 0 {
        seq![]
    } else {
        let rest = ode_rhs(eqs.drop_last());
        match eqs.last() {
            Equation::Simple { lhs, rhs } => if state_of(eqs.last()) is Some {
                rest.push(rhs)
            } else {
                rest
            },
            _ => rest,
        }
    }
}

/// Where a component goes: 0 constants, 1 states, 2 discrete, 3 inputs,
/// 4 other continuous variables, 5 parameters.
pub open spec fn category(c: ClassDefinition, comp: Component) -> nat {
    match comp.variability {
        Variability::Constant(_) => 0,
        Variability::Discrete(_) => 2,
        Variability::Parameter(_) => 5,
        Variability::Empty => if is_state(c, comp.name@) {
            1
        } else if comp.causality is Input {
            3
        } else {
            4
        },
    }
}

/// The components of a category, in order.
pub open spec fn in_category(c: ClassDefinition, cs: Seq<Component>, k: nat) -> Seq<Component>
    decreases cs.len(),
{
    if cs.len() == 0 {
        seq![]
    } else if category(c, cs.last()) == k {
        in_category(c, cs.drop_last(), k).push(cs.last())
    } else {
        in_category(c, cs.drop_last(), k)
    }
}

/// `f` is the flat form of component `comp`.
pub open spec fn flat_component_ok(f: FlatComponent, comp: Component) -> bool {
    f.name@ == comp.name@ && same_expr(comp.start, f.start) && same_subs(comp.shape@, f.array_subscripts@)
}

/// `fs` are the flat forms of the components `cs`.
pub open spec fn flat_list_ok(fs: Seq<FlatComponent>, cs: Seq<Component>) -> bool {
    fs.len() == cs.len() && forall|k: int| 0 <= k < cs.len() ==> flat_component_ok(#[trigger] fs[k], cs[k])
}

/// `m` is the flat model of class `c`.
pub open spec fn flat_model_ok(m: FlatModel, c: ClassDefinition) -> bool {
    &&& m.name@ == c.name.text@
    &&& m.description@ == token_texts(c.description@)
    &&& flat_list_ok(m.c@, in_category(c, c.components@, 0))
    &&& flat_list_ok(m.x@, in_category(c, c.components@, 1))
    &&& flat_list_ok(m.z@, in_category(c, c.components@, 2))
    &&& flat_list_ok(m.u@, in_category(c, c.components@, 3))
    &&& flat_list_ok(m.y@, in_category(c, c.components@, 4))
    &&& flat_list_ok(m.p@, in_category(c, c.components@, 5))
    &&& crate::structural::same_exprs(ode_rhs(c.equations@), m.ode@)
}

/// The last class in `cs` with the name of class `i`.
pub open spec fn last_named(cs: Seq<ClassDefinition>, i: int) -> int {
    choose|j: int| 0 <= j < cs.len() && cs[j].name.text@ == cs[i].name.text@ && forall|k: int| j < k < cs.len() ==> #[trigger] cs[k].name.text@ != cs[i].name.text@
}

/// The state of an equation, as characters.
fn state_of_exec(eq: &Equation) -> (r: Option<Vec<char>>)
    ensures
        match r {
            Some(v) => state_of(*eq) == Some(v@),
            None => state_of(*eq) is None,
        },
{
    match eq {
        Equation::Simple { lhs, .. } => match lhs {
            Expression::FunctionCall { comp, args } => crate::blt::der_call_target_exec(comp, args),
            _ => None,
        },
        _ => None,
    }
}

/// The texts of tokens, one after another.
pub open spec fn token_texts(ts: Seq<Token>) -> Seq<char>
    decreases ts.len(),
{
    if ts.len() == 0 {
        seq![]
    } else {
        token_texts(ts.drop_last()) + ts.last().text@
    }
}

/// The texts of tokens, one after another (see `token_texts`).
fn concat_token_texts(ts: &Vec<Token>) -> (r: String)
    ensures
        r@ == token_texts(ts@),
{
    let mut out: Vec<char> = Vec::new();
    let mut i: usize = 0;
    while i < ts.len()
        invariant
            i <= ts@.len(),
            out@ == token_texts(ts@.take(i as int)),
        decreases ts.len() - i,
    {
        crate::printer::append_str(&mut out, ts[i].text.as_str());
        proof {
            let t = ts@.take(i as int + 1);
            assert(t.drop_last() =~= ts@.take(i as int));
            assert(t.last() == ts@[i as int]);
        }
        i = i + 1;
    }
    assert(ts@.take(i as int) =~= ts@);
    crate::text::chars_to_string(&out)
}

/// The flat model of one class.
pub fn flatten_class(class: &ClassDefinition) -> (r: FlatModel)
    ensures
        flat_model_ok(r, *class),
{
    // the states and the right-hand sides of their equations
    let mut states: Vec<Vec<char>> = Vec::new();
    let mut ode: Vec<Expression> = Vec::new();
    let ghost eqs = class.equations@;
    let mut i: usize = 0;
    while i < class.equations.len()
        invariant
            i <= eqs.len(),
            eqs == class.equations@,
            forall|x: Seq<char>| crate::names::views(states@).contains(x) <==> exists|q: int| 0 <= q < i && #[trigger] state_of(eqs[q]) == Some(x),
            crate::structural::same_exprs(ode_rhs(eqs.take(i as int)), ode@),
        decreases eqs.len() - i,
    {
        let ghost t = eqs.take(i as int + 1);
        proof {
            assert(t.drop_last() =~= eqs.take(i as int));
            assert(t.last() == eqs[i as int]);
        }
        let ghost sv0 = crate::names::views(states@);
        let ghost o0 = ode@;
        match state_of_exec(&class.equations[i]) {
            Some(x) => {
                let ghost xv = x@;
                states.push(x);
                match &class.equations[i] {
                    Equation::Simple { rhs, .. } => {
                        let c = copy_expression(rhs);
                        ode.push(c);
                        proof {
                            assert(ode@.drop_last() =~= o0);
                            assert(ode_rhs(t) == ode_rhs(eqs.take(i as int)).push(*rhs));
                            assert(ode_rhs(t).drop_last() =~= ode_rhs(eqs.take(i as int)));
                            assert(crate::structural::same_exprs(ode_rhs(t), ode@));
                        }
                    },
                    _ => {},
                }
                proof {
                    assert(crate::names::views(states@) =~= sv0.push(xv));
                    assert forall|y: Seq<char>| crate::names::views(states@).contains(y) <==> exists|q: int| 0 <= q < i + 1 && #[trigger] state_of(eqs[q]) == Some(y) by {
                        if crate::names::views(states@).contains(y) {
                            let k = choose|k: int| 0 <= k < crate::names::views(states@).len() && crate::names::views(states@)[k] == y;
                            if k < sv0.len() {
                                assert(sv0[k] == y);
                                assert(sv0.contains(y));
                            } else {
                                assert(state_of(eqs[i as int]) == Some(y));
                            }
                        }
                        if exists|q: int| 0 <= q < i + 1 && #[trigger] state_of(eqs[q]) == Some(y) {
                            let q = choose|q: int| 0 <= q < i + 1 && #[trigger] state_of(eqs[q]) == Some(y);
                            if q < i {
                                assert(sv0.contains(y));
                                let k = choose|k: int| 0 <= k < sv0.len() && sv0[k] == y;
                                assert(crate::names::views(states@)[k] == y);
                            } else {
                                assert(crate::names::views(states@)[sv0.len() as int] == y);
                            }
                        }
                    }
                }
            },
            None => {
                proof {
                    assert(ode_rhs(t) == ode_rhs(eqs.take(i as int)));
                    assert forall|y: Seq<char>| crate::names::views(states@).contains(y) <==> exists|q: int| 0 <= q < i + 1 && #[trigger] state_of(eqs[q]) == Some(y) by {
                        if exists|q: int| 0 <= q < i + 1 && #[trigger] state_of(eqs[q]) == Some(y) {
                            let q = choose|q: int| 0 <= q < i + 1 && #[trigger] state_of(eqs[q]) == Some(y);
                            assert(q < i);
                        }
                    }
                }
            },
        }
        i = i + 1;
    }
    proof {
        assert(eqs.take(eqs.len() as int) =~= eqs);
    }
    let mut m = FlatModel {
        name: class.name.text.clone(),
        description: concat_token_texts(&class.description),
        c: Vec::new(),
        x: Vec::new(),
        z: Vec::new(),
        u: Vec::new(),
        y: Vec::new(),
        p: Vec::new(),
        ode,
    };
    let ghost cs = class.components@;
    let mut k: usize = 0;
    while k < class.components.len()
        invariant
            k <= cs.len(),
            cs == class.components@,
            forall|x: Seq<char>| crate::names::views(states@).contains(x) <==> is_state(*class, x),
            m.name@ == class.name.text@,
            m.description@ == token_texts(class.description@),
            crate::structural::same_exprs(ode_rhs(class.equations@), m.ode@),
            flat_list_ok(m.c@, in_category(*class, cs.take(k as int), 0)),
            flat_list_ok(m.x@, in_category(*class, cs.take(k as int), 1)),
            flat_list_ok(m.z@, in_category(*class, cs.take(k as int), 2)),
            flat_list_ok(m.u@, in_category(*class, cs.take(k as int), 3)),
            flat_list_ok(m.y@, in_category(*class, cs.take(k as int), 4)),
            flat_list_ok(m.p@, in_category(*class, cs.take(k as int), 5)),
        decreases cs.len() - k,
    {
        let comp = &class.components[k];
        let ghost t = cs.take(k as int + 1);
        proof {
            assert(t.drop_last() =~= cs.take(k as int));
            assert(t.last() == cs[k as int]);
        }
        let f = FlatComponent {
            name: comp.name.clone(),
            start: copy_expression(&comp.start),
            array_subscripts: copy_subscripts(&comp.shape),
        };
        let cat: usize = match &comp.variability {
            Variability::Constant(_) => 0,
            Variability::Discrete(_) => 2,
            Variability::Parameter(_) => 5,
            Variability::Empty => {
                let nm = crate::text::str_to_chars(comp.name.as_str());
                if crate::names::position(&states, &nm).is_some() {
                    proof {
                        let q = choose|q: int| 0 <= q < states@.len() && states@[q]@ == nm@;
                        assert(crate::names::views(states@)[q] == nm@);
                    }
                    1
                } else {
                    proof {
                        if is_state(*class, comp.name@) {
                            assert(crate::names::views(states@).contains(nm@));
                            let q = choose|q: int| 0 <= q < crate::names::views(states@).len() && crate::names::views(states@)[q] == nm@;
                            assert(states@[q]@ == nm@);
                        }
                    }
                    match comp.causality {
                        Causality::Input(_) => 3,
                        _ => 4,
                    }
                }
            },
        };
        assert(cat == category(*class, *comp));
        let ghost before = m;
        if cat == 0 {
            m.c.push(f);
        } else if cat == 1 {
            m.x.push(f);
        } else if cat == 2 {
            m.z.push(f);
        } else if cat == 3 {
            m.u.push(f);
        } else if cat == 4 {
            m.y.push(f);
        } else {
            m.p.push(f);
        }
        proof {
            assert forall|q: nat| q <= 5 implies in_category(*class, t, q) == if q == cat {
                in_category(*class, cs.take(k as int), q).push(*comp)
            } else {
                in_category(*class, cs.take(k as int), q)
            } by {}
        }
        k = k + 1;
    }
    proof {
        assert(cs.take(cs.len() as int) =~= cs);
    }
    m
}

/// The flat models of the classes of a document, in order; where several
/// classes share a name, each of them stands for the last one.
pub fn flatten(def: &StoredDefinition) -> (r: Vec<FlatModel>)
    ensures
        r@.len() == def.class_list@.len(),
        forall|i: int| 0 <= i < r@.len() ==> flat_model_ok(#[trigger] r@[i], def.class_list@[last_named(def.class_list@, i)]),
{
    let ghost cs = def.class_list@;
    let mut models: Vec<FlatModel> = Vec::new();
    let mut i: usize = 0;
    while i < def.class_list.len()
        invariant
            i <= cs.len(),
            cs == def.class_list@,
            models@.len() == i,
            forall|q: int| 0 <= q < i ==> flat_model_ok(#[trigger] models@[q], cs[last_named(cs, q)]),
        decreases cs.len() - i,
    {
        let mut j = def.class_list.len() - 1;
        while def.class_list[j].name.text != def.class_list[i].name.text
            invariant
                cs == def.class_list@,
                i <= j < cs.len(),
                forall|k: int| j < k < cs.len() ==> #[trigger] cs[k].name.text@ != cs[i as int].name.text@,
            decreases j,
        {
            j = j - 1;
        }
        proof {
            assert(cs[j as int].name.text@ == cs[i as int].name.text@);
            assert(last_named(cs, i as int) == j) by {
                let l = last_named(cs, i as int);
                assert(0 <= l < cs.len() && cs[l].name.text@ == cs[i as int].name.text@ && forall|k: int| l < k < cs.len() ==> #[trigger] cs[k].name.text@ != cs[i as int].name.text@);
                if l < j {
                    assert(cs[j as int].name.text@ != cs[i as int].name.text@);
                }
                if l > j {
                    assert(cs[l].name.text@ != cs[i as int].name.text@);
                }
            }
        }
        let fm = flatten_class(&def.class_list[j]);
        models.push(fm);
        i = i + 1;
    }
    models
}

} // verus!
