//! Linear programs as the caller builds them: named variables with bounds and
//! an objective coefficient, and named constraints over them.

use crate::rational::Rational;
use vstd::prelude::*;
use vstd::string::*;

verus! {

/// A relation of a constraint together with its right-hand side.
pub enum Relation {
    LessThan(real),
    Equals(real),
    GreaterThan(real),
}

impl Relation {
    /// The right-hand side.
    pub open spec fn rhs(self) -> real {
        match self {
            Relation::LessThan(r) => r,
            Relation::Equals(r) => r,
            Relation::GreaterThan(r) => r,
        }
    }

    /// The relation of the constraint multiplied by -1: the right-hand side
    /// changes its sign and an inequality turns round.
    pub open spec fn negated(self) -> Relation {
        match self {
            Relation::LessThan(r) => Relation::GreaterThan(-r),
            Relation::Equals(r) => Relation::Equals(-r),
            Relation::GreaterThan(r) => Relation::LessThan(-r),
        }
    }
}

/// The relation of a constraint, carrying its right-hand side.
#[derive(Clone, Copy, Debug)]
pub enum ConstraintType {
    LessThan(Rational),
    Equals(Rational),
    GreaterThan(Rational),
}

impl View for ConstraintType {
    type V = Relation;

    open spec fn view(&self) -> Relation {
        match *self {
            ConstraintType::LessThan(r) => Relation::LessThan(r@),
            ConstraintType::Equals(r) => Relation::Equals(r@),
            ConstraintType::GreaterThan(r) => Relation::GreaterThan(r@),
        }
    }
}

/// What a variable is, in mathematical terms.
pub struct VariableView {
    pub name: Seq<char>,
    pub lower_bound: Option<real>,
    pub upper_bound: Option<real>,
    pub objective: real,
}

impl VariableView {
    /// Whether the solver can honour the bounds: a lower bound must be 0
    /// (every variable is non-negative anyway) and must differ from the
    /// upper bound.
    pub open spec fn supported(self) -> bool {
        match self.lower_bound {
            Some(l) => l == 0real && self.upper_bound != Some(l),
            None => true,
        }
    }
}

/// The value of an optional rational.
pub open spec fn optional_value(x: Option<Rational>) -> Option<real> {
    match x {
        Some(r) => Some(r@),
        None => None,
    }
}

/// A decision variable of a linear program.
#[derive(Debug)]
pub struct Variable {
    name: String,
    lower_bound: Option<Rational>,
    upper_bound: Option<Rational>,
    objective_value: Rational,
}

impl View for Variable {
    type V = VariableView;

    closed spec fn view(&self) -> VariableView {
        VariableView {
            name: self.name@,
            lower_bound: optional_value(self.lower_bound),
            upper_bound: optional_value(self.upper_bound),
            objective: self.objective_value@,
        }
    }
}

impl Clone for Variable {
    fn clone(&self) -> (r: Variable)
        ensures
            r@ == self@,
    {
        Variable {
            name: self.name.clone(),
            lower_bound: self.lower_bound,
            upper_bound: self.upper_bound,
            objective_value: self.objective_value,
        }
    }
}

impl Variable {
    /// A variable without bounds and with objective coefficient 0.
    pub fn new(name: String) -> (v: Variable)
        ensures
            v@ == (VariableView {
                name: name@,
                lower_bound: None,
                upper_bound: None,
                objective: 0real,
            }),
    {
        Variable { name, lower_bound: None, upper_bound: None, objective_value: Rational::zero() }
    }

    /// The same variable with another objective coefficient.
    pub fn with_objective(self, objective_value: Rational) -> (v: Variable)
        ensures
            v@ == (VariableView { objective: objective_value@, ..self@ }),
    {
        let mut v = self;
        v.objective_value = objective_value;
        v
    }

    /// The same variable with another lower bound, or with none.
    pub fn with_lower_bound(self, lower_bound: Option<Rational>) -> (v: Variable)
        ensures
            v@ == (VariableView { lower_bound: optional_value(lower_bound), ..self@ }),
    {
        let mut v = self;
        v.lower_bound = lower_bound;
        v
    }

    /// The same variable with another upper bound, or with none.
    pub fn with_upper_bound(self, upper_bound: Option<Rational>) -> (v: Variable)
        ensures
            v@ == (VariableView { upper_bound: optional_value(upper_bound), ..self@ }),
    {
        let mut v = self;
        v.upper_bound = upper_bound;
        v
    }

    /// The name.
    pub fn name(&self) -> (s: &str)
        ensures
            s@ == self@.name,
    {
        self.name.as_str()
    }

    /// The objective coefficient.
    pub fn objective_value(&self) -> (r: Rational)
        ensures
            r@ == self@.objective,
    {
        self.objective_value
    }

    /// The lower bound, if there is one.
    pub fn lower_bound(&self) -> (r: Option<Rational>)
        ensures
            optional_value(r) == self@.lower_bound,
    {
        self.lower_bound
    }

    /// The upper bound, if there is one.
    pub fn upper_bound(&self) -> (r: Option<Rational>)
        ensures
            optional_value(r) == self@.upper_bound,
    {
        self.upper_bound
    }

    /// Whether the solver can honour the bounds of this variable.
    pub fn has_supported_bounds(&self) -> (b: bool)
        ensures
            b == self@.supported(),
    {
        match self.lower_bound {
            Some(l) => {
                if !l.is_zero() {
                    false
                } else {
                    match self.upper_bound {
                        Some(u) => !u.is_zero(),
                        None => true,
                    }
                }
            },
            None => true,
        }
    }
}

/// The character sequences of a list of strings.
pub open spec fn string_values(strings: Seq<String>) -> Seq<Seq<char>> {
    Seq::new(strings.len(), |i: int| strings[i]@)
}

/// The names of a list of variables as they are held.
pub open spec fn listed_names(variables: Seq<Variable>) -> Seq<Seq<char>> {
    Seq::new(variables.len(), |i: int| variables[i]@.name)
}

/// Whether a variable called `name` is among `variables`.
pub fn is_listed(variables: &Vec<Variable>, name: &String) -> (b: bool)
    ensures
        b == listed_names(variables@).contains(name@),
{
    let mut i: usize = 0;
    while i < variables.len()
        invariant
            i <= variables@.len(),
            forall|k: int| 0 <= k < i ==> #[trigger] listed_names(variables@)[k] != name@,
        decreases variables.len() - i,
    {
        if variables[i].name == *name {
            assert(listed_names(variables@)[i as int] == name@);
            return true;
        }
        i += 1;
    }
    false
}

/// One entry of a constraint's sparse row: a variable's name and its
/// coefficient.
#[derive(Debug)]
struct Term {
    name: String,
    value: Rational,
}

/// The names and values of a list of terms.
spec fn term_pairs(terms: Seq<Term>) -> Seq<(Seq<char>, real)> {
    Seq::new(terms.len(), |i: int| (terms[i].name@, terms[i].value@))
}

/// The names in a list of pairs, in order.
spec fn pair_names(pairs: Seq<(Seq<char>, real)>) -> Seq<Seq<char>> {
    Seq::new(pairs.len(), |i: int| pairs[i].0)
}

/// The map from each name in a list of pairs to the value beside it.
spec fn pair_map(pairs: Seq<(Seq<char>, real)>) -> Map<Seq<char>, real> {
    Map::new(
        |k: Seq<char>| pair_names(pairs).contains(k),
        |k: Seq<char>| pairs[pair_names(pairs).index_of(k)].1,
    )
}

/// In a list of pairs with distinct names, each name leads to its own value.
proof fn lemma_pair_lookup(pairs: Seq<(Seq<char>, real)>, i: int)
    requires
        pair_names(pairs).no_duplicates(),
        0 <= i < pairs.len(),
    ensures
        pair_names(pairs).contains(pairs[i].0),
        pair_names(pairs).index_of(pairs[i].0) == i,
        pair_map(pairs).contains_key(pairs[i].0),
        pair_map(pairs)[pairs[i].0] == pairs[i].1,
{
    let names = pair_names(pairs);
    assert(names[i] == pairs[i].0);
    let j = names.index_of(pairs[i].0);
    assert(0 <= j < names.len() && names[j] == pairs[i].0);
}

/// What a constraint is, in mathematical terms.
pub struct ConstraintView {
    pub name: Seq<char>,
    pub coefficients: Map<Seq<char>, real>,
    pub relation: Relation,
}

impl ConstraintView {
    /// The coefficient of the variable called `name`; 0 if the constraint
    /// does not mention it.
    pub open spec fn coefficient(self, name: Seq<char>) -> real {
        if self.coefficients.contains_key(name) {
            self.coefficients[name]
        } else {
            0real
        }
    }

    /// The constraint multiplied by -1.
    pub open spec fn negated(self) -> ConstraintView {
        ConstraintView {
            name: self.name,
            coefficients: self.coefficients.map_values(|v: real| -v),
            relation: self.relation.negated(),
        }
    }

    /// The constraint with a right-hand side that is not negative: itself,
    /// or multiplied by -1 where the right-hand side was negative.
    pub open spec fn normalized(self) -> ConstraintView {
        if self.relation.rhs() < 0real {
            self.negated()
        } else {
            self
        }
    }
}

/// A linear constraint: a sparse row of coefficients, a relation and a
/// right-hand side.
#[derive(Debug)]
pub struct Constraint {
    name: String,
    coefficients: Vec<Term>,
    constraint_type: ConstraintType,
}

impl View for Constraint {
    type V = ConstraintView;

    closed spec fn view(&self) -> ConstraintView {
        ConstraintView {
            name: self.name@,
            coefficients: pair_map(term_pairs(self.coefficients@)),
            relation: self.constraint_type@,
        }
    }
}

impl Clone for Constraint {
    fn clone(&self) -> (r: Constraint)
        ensures
            r@ == self@,
            r.wf() == self.wf(),
    {
        let mut terms: Vec<Term> = Vec::new();
        let mut i: usize = 0;
        while i < self.coefficients.len()
            invariant
                i <= self.coefficients.len(),
                terms@.len() == i,
                forall|k: int|
                    0 <= k < i ==> (#[trigger] terms@[k]).name@ == self.coefficients@[k].name@
                        && terms@[k].value@ == self.coefficients@[k].value@,
            decreases self.coefficients.len() - i,
        {
            terms.push(Term { name: self.coefficients[i].name.clone(), value: self.coefficients[i].value });
            i += 1;
        }
        assert(term_pairs(terms@) =~= term_pairs(self.coefficients@));
        Constraint { name: self.name.clone(), coefficients: terms, constraint_type: self.constraint_type }
    }
}

impl Constraint {
    /// No variable is named twice among the coefficients.
    pub closed spec fn wf(&self) -> bool {
        pair_names(term_pairs(self.coefficients@)).no_duplicates()
    }

    /// A constraint without coefficients.
    pub fn new(name: String, constraint_type: ConstraintType) -> (c: Constraint)
        ensures
            c.wf(),
            c@ == (ConstraintView {
                name: name@,
                coefficients: Map::<Seq<char>, real>::empty(),
                relation: constraint_type@,
            }),
    {
        let c = Constraint { name, coefficients: Vec::new(), constraint_type };
        assert(c@.coefficients =~= Map::<Seq<char>, real>::empty());
        c
    }

    /// Where the coefficient of the variable called `name` is stored.
    fn find_term(&self, name: &String) -> (r: Option<usize>)
        ensures
            match r {
                Some(i) => i < self.coefficients@.len() && self.coefficients@[i as int].name@ == name@,
                None => !pair_names(term_pairs(self.coefficients@)).contains(name@),
            },
    {
        let mut i: usize = 0;
        while i < self.coefficients.len()
            invariant
                i <= self.coefficients.len(),
                forall|k: int| 0 <= k < i ==> (#[trigger] self.coefficients@[k]).name@ != name@,
            decreases self.coefficients.len() - i,
        {
            if self.coefficients[i].name == *name {
                return Some(i);
            }
            i += 1;
        }
        proof {
            let names = pair_names(term_pairs(self.coefficients@));
            assert forall|k: int| 0 <= k < names.len() implies names[k] != name@ by {
                assert(self.coefficients@[k].name@ != name@);
            }
        }
        None
    }

    /// Sets the coefficient of `variable`, replacing an earlier one.
    pub fn set_coefficient(&mut self, variable: &Variable, coefficient: Rational)
        requires
            old(self).wf(),
        ensures
            final(self).wf(),
            final(self)@ == (ConstraintView {
                coefficients: old(self)@.coefficients.insert(variable@.name, coefficient@),
                ..old(self)@
            }),
    {
        let ghost before = term_pairs(self.coefficients@);
        let ghost key = variable.name@;
        match self.find_term(&variable.name) {
            Some(i) => {
                self.coefficients[i].value = coefficient;
                proof {
                    let after = term_pairs(self.coefficients@);
                    assert(after =~= before.update(i as int, (key, coefficient@)));
                    assert(pair_names(after) =~= pair_names(before));
                    assert forall|k: Seq<char>| #[trigger]
                        pair_map(after).contains_key(k) implies pair_map(after)[k] == pair_map(
                        before,
                    ).insert(key, coefficient@)[k] by {
                        let j = pair_names(after).index_of(k);
                        lemma_pair_lookup(after, j);
                        lemma_pair_lookup(before, j);
                        lemma_pair_lookup(after, i as int);
                    }
                    lemma_pair_lookup(before, i as int);
                    assert(pair_map(after) =~= pair_map(before).insert(key, coefficient@));
                }
            },
            None => {
                self.coefficients.push(Term { name: variable.name.clone(), value: coefficient });
                proof {
                    let after = term_pairs(self.coefficients@);
                    assert(after =~= before.push((key, coefficient@)));
                    assert(pair_names(after) =~= pair_names(before).push(key));
                    let last = before.len() as int;
                    assert(pair_names(after).no_duplicates());
                    lemma_pair_lookup(after, last);
                    assert forall|k: Seq<char>|
                        pair_map(before).contains_key(k) implies #[trigger] pair_map(
                        after,
                    ).contains_key(k) && pair_map(after)[k] == pair_map(before)[k] by {
                        let j = pair_names(before).index_of(k);
                        lemma_pair_lookup(before, j);
                        lemma_pair_lookup(after, j);
                    }
                    assert forall|k: Seq<char>| #[trigger]
                        pair_map(after).contains_key(k) implies k == key || pair_map(
                        before,
                    ).contains_key(k) by {
                        let j = pair_names(after).index_of(k);
                        if j < last {
                            assert(pair_names(before)[j] == k);
                        }
                    }
                    assert(pair_map(after) =~= pair_map(before).insert(key, coefficient@));
                }
            },
        }
    }

    /// The name.
    pub fn name(&self) -> (s: &str)
        ensures
            s@ == self@.name,
    {
        self.name.as_str()
    }

    /// The right-hand side.
    pub fn rhs(&self) -> (r: Rational)
        ensures
            r@ == self@.relation.rhs(),
    {
        match self.constraint_type {
            ConstraintType::LessThan(rhs) => rhs,
            ConstraintType::Equals(rhs) => rhs,
            ConstraintType::GreaterThan(rhs) => rhs,
        }
    }

    /// The relation of the constraint, with its right-hand side.
    pub fn constraint_type(&self) -> (t: &ConstraintType)
        ensures
            t@ == self@.relation,
    {
        &self.constraint_type
    }

    /// The coefficient of `variable`; 0 if the constraint does not mention
    /// it.
    pub fn get_coefficient(&self, variable: &Variable) -> (r: Rational)
        requires
            self.wf(),
        ensures
            r@ == self@.coefficient(variable@.name),
    {
        self.coefficient_of(&variable.name)
    }

    /// The coefficient of the variable called `name`; 0 if the constraint
    /// does not mention it.
    pub fn coefficient_of(&self, name: &String) -> (r: Rational)
        requires
            self.wf(),
        ensures
            r@ == self@.coefficient(name@),
    {
        match self.find_term(name) {
            Some(i) => {
                proof {
                    lemma_pair_lookup(term_pairs(self.coefficients@), i as int);
                }
                self.coefficients[i].value
            },
            None => Rational::zero(),
        }
    }

    /// The variables that the constraint gives a coefficient to and that are
    /// not among `variables`, each once. A tableau ignores their
    /// coefficients.
    pub fn unknown_variables(&self, variables: &Vec<Variable>) -> (unknown: Vec<String>)
        requires
            self.wf(),
        ensures
            string_values(unknown@).no_duplicates(),
            forall|name: Seq<char>| #[trigger]
                string_values(unknown@).contains(name) <==> self@.coefficients.contains_key(name)
                    && !listed_names(variables@).contains(name),
    {
        let ghost pairs = term_pairs(self.coefficients@);
        let ghost names = pair_names(pairs);
        let ghost known = listed_names(variables@);
        let mut unknown: Vec<String> = Vec::new();
        let mut i: usize = 0;
        while i < self.coefficients.len()
            invariant
                i <= self.coefficients@.len(),
                pairs == term_pairs(self.coefficients@),
                names == pair_names(pairs),
                names.no_duplicates(),
                known == listed_names(variables@),
                string_values(unknown@).no_duplicates(),
                forall|name: Seq<char>| #[trigger]
                    string_values(unknown@).contains(name) <==> (exists|k: int|
                        0 <= k < i && #[trigger] names[k] == name) && !known.contains(name),
            decreases self.coefficients.len() - i,
        {
            let ghost before = string_values(unknown@);
            let ghost current = names[i as int];
            assert(current == self.coefficients@[i as int].name@);
            if !is_listed(variables, &self.coefficients[i].name) {
                unknown.push(self.coefficients[i].name.clone());
                proof {
                    let after = string_values(unknown@);
                    assert(after =~= before.push(current));
                    assert(!before.contains(current)) by {
                        if before.contains(current) {
                            let k = choose|k: int| 0 <= k < i && #[trigger] names[k] == current;
                            assert(names[k] == names[i as int]);
                        }
                    }
                    assert forall|name: Seq<char>| #[trigger]
                        after.contains(name) <==> (exists|k: int|
                            0 <= k < i + 1 && #[trigger] names[k] == name) && !known.contains(name) by {
                        if after.contains(name) {
                            let at = choose|at: int| 0 <= at < after.len() && after[at] == name;
                            if at < before.len() {
                                assert(before[at] == name);
                                assert(before.contains(name));
                                let k = choose|k: int| 0 <= k < i && #[trigger] names[k] == name;
                                assert(0 <= k < i + 1 && names[k] == name);
                            } else {
                                assert(names[i as int] == name);
                            }
                        }
                        if (exists|k: int| 0 <= k < i + 1 && #[trigger] names[k] == name)
                            && !known.contains(name) {
                            let k = choose|k: int| 0 <= k < i + 1 && #[trigger] names[k] == name;
                            if k < i {
                                assert(before.contains(name));
                                let at = choose|at: int| 0 <= at < before.len() && before[at] == name;
                                assert(after[at] == name);
                            } else {
                                assert(after[before.len() as int] == name);
                            }
                        }
                    }
                }
            } else {
                proof {
                    assert forall|name: Seq<char>| #[trigger]
                        before.contains(name) <==> (exists|k: int|
                            0 <= k < i + 1 && #[trigger] names[k] == name) && !known.contains(name) by {
                        if (exists|k: int| 0 <= k < i + 1 && #[trigger] names[k] == name)
                            && !known.contains(name) {
                            let k = choose|k: int| 0 <= k < i + 1 && #[trigger] names[k] == name;
                            assert(k < i);
                        }
                        if before.contains(name) {
                            let k = choose|k: int| 0 <= k < i && #[trigger] names[k] == name;
                            assert(0 <= k < i + 1 && names[k] == name);
                        }
                    }
                }
            }
            i += 1;
        }
        proof {
            assert forall|name: Seq<char>| #[trigger]
                string_values(unknown@).contains(name) <==> self@.coefficients.contains_key(name)
                    && !known.contains(name) by {
                if names.contains(name) {
                    let k = names.index_of(name);
                    assert(0 <= k < i && names[k] == name);
                }
                if exists|k: int| 0 <= k < i && #[trigger] names[k] == name {
                    let k = choose|k: int| 0 <= k < i && #[trigger] names[k] == name;
                    assert(names.contains(name));
                }
            }
        }
        unknown
    }

    /// Multiplies the constraint by -1, which makes a negative right-hand
    /// side positive.
    pub fn fix_negative_rhs(&mut self)
        requires
            old(self).wf(),
            old(self)@.relation.rhs() < 0real,
        ensures
            final(self).wf(),
            final(self)@ == old(self)@.negated(),
    {
        self.constraint_type = match self.constraint_type {
            ConstraintType::LessThan(rhs) => ConstraintType::GreaterThan(rhs.neg()),
            ConstraintType::Equals(rhs) => ConstraintType::Equals(rhs.neg()),
            ConstraintType::GreaterThan(rhs) => ConstraintType::LessThan(rhs.neg()),
        };
        let ghost before = term_pairs(old(self).coefficients@);
        let mut i: usize = 0;
        while i < self.coefficients.len()
            invariant
                i <= self.coefficients.len(),
                self.coefficients@.len() == before.len(),
                self.name == old(self).name,
                self.constraint_type@ == old(self).constraint_type@.negated(),
                before == term_pairs(old(self).coefficients@),
                forall|k: int|
                    0 <= k < before.len() ==> (#[trigger] self.coefficients@[k]).name@ == before[k].0,
                forall|k: int| 0 <= k < i ==> (#[trigger] self.coefficients@[k]).value@ == -before[k].1,
                forall|k: int|
                    i <= k < before.len() ==> (#[trigger] self.coefficients@[k]).value@ == before[k].1,
            decreases self.coefficients.len() - i,
        {
            let negated: Rational = self.coefficients[i].value.neg();
            self.coefficients[i].value = negated;
            i += 1;
        }
        proof {
            let after = term_pairs(self.coefficients@);
            assert(pair_names(after) =~= pair_names(before));
            assert forall|k: Seq<char>| #[trigger]
                pair_map(after).contains_key(k) implies pair_map(after)[k] == -pair_map(before)[k] by {
                let j = pair_names(after).index_of(k);
                lemma_pair_lookup(after, j);
                lemma_pair_lookup(before, j);
            }
            assert(pair_map(after) =~= pair_map(before).map_values(|v: real| -v));
        }
    }
}

/// The names of a list of variables, in order.
pub open spec fn variable_names(variables: Seq<VariableView>) -> Seq<Seq<char>> {
    Seq::new(variables.len(), |i: int| variables[i].name)
}

/// The names of a list of constraints, in order.
pub open spec fn constraint_names(constraints: Seq<ConstraintView>) -> Seq<Seq<char>> {
    Seq::new(constraints.len(), |i: int| constraints[i].name)
}

/// The list with `variable` in it: in the place of the variable of the same
/// name, or at the end if there is none.
pub open spec fn with_variable(variables: Seq<VariableView>, variable: VariableView) -> Seq<
    VariableView,
> {
    let names = variable_names(variables);
    if names.contains(variable.name) {
        variables.update(names.index_of(variable.name), variable)
    } else {
        variables.push(variable)
    }
}

/// The list with `constraint` in it: in the place of the constraint of the
/// same name, or at the end if there is none.
pub open spec fn with_constraint(constraints: Seq<ConstraintView>, constraint: ConstraintView) -> Seq<
    ConstraintView,
> {
    let names = constraint_names(constraints);
    if names.contains(constraint.name) {
        constraints.update(names.index_of(constraint.name), constraint)
    } else {
        constraints.push(constraint)
    }
}

/// The name of the constraint that holds the upper bound of the variable
/// called `name`.
pub open spec fn bound_name(name: Seq<char>) -> Seq<char> {
    name + "_ub"@
}

/// The constraint that keeps the variable called `name` at or below
/// `upper`.
pub open spec fn bound_constraint(name: Seq<char>, upper: real) -> ConstraintView {
    ConstraintView {
        name: bound_name(name),
        coefficients: Map::<Seq<char>, real>::empty().insert(name, 1real),
        relation: Relation::LessThan(upper),
    }
}

/// The list with the bound constraint of `variable` in it, if the variable
/// has an upper bound.
pub open spec fn with_bound(constraints: Seq<ConstraintView>, variable: VariableView) -> Seq<
    ConstraintView,
> {
    match variable.upper_bound {
        Some(upper) => with_constraint(constraints, bound_constraint(variable.name, upper)),
        None => constraints,
    }
}

/// Whether the solver can honour the bounds of every variable.
pub open spec fn all_supported(variables: Seq<VariableView>) -> bool {
    forall|i: int| 0 <= i < variables.len() ==> (#[trigger] variables[i]).supported()
}

/// The constraints, each with a right-hand side that is not negative.
pub open spec fn normalized_constraints(constraints: Seq<ConstraintView>) -> Seq<ConstraintView> {
    Seq::new(constraints.len(), |i: int| constraints[i].normalized())
}

/// The constraints together with the bound constraints of the first `count`
/// variables, added in the variables' order.
pub open spec fn bounded(constraints: Seq<ConstraintView>, variables: Seq<VariableView>, count: nat) -> Seq<
    ConstraintView,
>
    decreases count,
{
    if count == 0 {
        constraints
    } else {
        with_bound(bounded(constraints, variables, (count - 1) as nat), variables[count - 1])
    }
}

/// The model as the solver works on it: no right-hand side is negative, and
/// every upper bound of a variable has its constraint.
pub open spec fn preprocessed(model: ModelView) -> ModelView {
    ModelView {
        variables: model.variables,
        constraints: bounded(
            normalized_constraints(model.constraints),
            model.variables,
            model.variables.len(),
        ),
    }
}

/// Bringing a constraint to a right-hand side that is not negative does
/// nothing the second time: a constraint that was turned round is not turned
/// back.
pub proof fn lemma_normalized_idempotent(constraint: ConstraintView)
    ensures
        constraint.normalized().relation.rhs() >= 0real,
        constraint.normalized().normalized() == constraint.normalized(),
{
}

/// Bringing all constraints to right-hand sides that are not negative does
/// nothing the second time.
pub proof fn lemma_normalized_constraints_idempotent(constraints: Seq<ConstraintView>)
    ensures
        normalized_constraints(normalized_constraints(constraints)) == normalized_constraints(
            constraints,
        ),
{
    assert forall|i: int| 0 <= i < constraints.len() implies (#[trigger] constraints[i]).normalized().normalized()
        == constraints[i].normalized() by {
        lemma_normalized_idempotent(constraints[i]);
    }
    assert(normalized_constraints(normalized_constraints(constraints)) =~= normalized_constraints(
        constraints,
    ));
}

/// Different variables have bound constraints of different names.
pub proof fn lemma_bound_name_injective(a: Seq<char>, b: Seq<char>)
    requires
        bound_name(a) == bound_name(b),
    ensures
        a == b,
{
    let suffix = "_ub"@;
    assert(a.len() + suffix.len() == b.len() + suffix.len()) by {
        assert((a + suffix).len() == (b + suffix).len());
    }
    assert forall|i: int| 0 <= i < a.len() implies a[i] == b[i] by {
        assert((a + suffix)[i] == (b + suffix)[i]);
    }
    assert(a =~= b);
}

/// Adding a constraint keeps the names distinct, puts the constraint in the
/// list, and leaves every constraint of another name in its place.
pub proof fn lemma_with_constraint(constraints: Seq<ConstraintView>, constraint: ConstraintView)
    requires
        constraint_names(constraints).no_duplicates(),
    ensures
        constraint_names(with_constraint(constraints, constraint)).no_duplicates(),
        exists|k: int|
            0 <= k < with_constraint(constraints, constraint).len() && #[trigger] with_constraint(
                constraints,
                constraint,
            )[k] == constraint,
        forall|k: int|
            0 <= k < constraints.len() && (#[trigger] constraints[k]).name != constraint.name
                ==> k < with_constraint(constraints, constraint).len() && with_constraint(
                constraints,
                constraint,
            )[k] == constraints[k],
{
    let names = constraint_names(constraints);
    let after = with_constraint(constraints, constraint);
    if names.contains(constraint.name) {
        let i = names.index_of(constraint.name);
        assert(0 <= i < names.len() && names[i] == constraint.name);
        assert(constraint_names(after) =~= names);
        assert(after[i] == constraint);
    } else {
        assert(constraint_names(after) =~= names.push(constraint.name));
        assert(after[constraints.len() as int] == constraint);
        assert forall|a: int, b: int|
            0 <= a < names.len() + 1 && 0 <= b < names.len() + 1 && a != b implies names.push(
            constraint.name,
        )[a] != names.push(constraint.name)[b] by {
            if a < names.len() {
                assert(names[a] != constraint.name);
            }
            if b < names.len() {
                assert(names[b] != constraint.name);
            }
        }
    }
}

/// After the bound constraints of the first `count` variables have been
/// added, names are distinct and each of these variables that has an upper
/// bound has its bound constraint in the list.
pub proof fn lemma_bounded(
    constraints: Seq<ConstraintView>,
    variables: Seq<VariableView>,
    count: nat,
    i: int,
)
    requires
        constraint_names(constraints).no_duplicates(),
        variable_names(variables).no_duplicates(),
        count <= variables.len(),
    ensures
        constraint_names(bounded(constraints, variables, count)).no_duplicates(),
        0 <= i < count && variables[i].upper_bound is Some ==> exists|k: int|
            0 <= k < bounded(constraints, variables, count).len() && #[trigger] bounded(
                constraints,
                variables,
                count,
            )[k] == bound_constraint(variables[i].name, variables[i].upper_bound.unwrap()),
    decreases count,
{
    if count > 0 {
        let before = bounded(constraints, variables, (count - 1) as nat);
        let after = bounded(constraints, variables, count);
        let last = variables[count - 1];
        lemma_bounded(constraints, variables, (count - 1) as nat, i);
        match last.upper_bound {
            Some(upper) => {
                let added = bound_constraint(last.name, upper);
                lemma_with_constraint(before, added);
                if 0 <= i < count - 1 && variables[i].upper_bound is Some {
                    let wanted = bound_constraint(variables[i].name, variables[i].upper_bound.unwrap());
                    let k = choose|k: int| 0 <= k < before.len() && #[trigger] before[k] == wanted;
                    assert(variable_names(variables)[i] != variable_names(variables)[count - 1]);
                    if wanted.name == added.name {
                        lemma_bound_name_injective(variables[i].name, last.name);
                    }
                    assert(before[k].name != added.name);
                    assert(after[k] == wanted);
                }
            },
            None => {},
        }
    }
}

/// In the preprocessed model every variable with an upper bound has its
/// bound constraint, with coefficient 1 on the variable alone, and no other
/// constraint bears that constraint's name.
pub proof fn lemma_bound_constraint_exactly_once(model: ModelView, i: int)
    requires
        model.wf(),
        0 <= i < model.variables.len(),
        model.variables[i].upper_bound is Some,
    ensures
        exists|k: int|
            0 <= k < preprocessed(model).constraints.len() && #[trigger] preprocessed(
                model,
            ).constraints[k] == bound_constraint(
                model.variables[i].name,
                model.variables[i].upper_bound.unwrap(),
            ) && forall|j: int|
                0 <= j < preprocessed(model).constraints.len() && (#[trigger] preprocessed(
                    model,
                ).constraints[j]).name == bound_name(model.variables[i].name) ==> j == k,
{
    let start = normalized_constraints(model.constraints);
    assert(constraint_names(start) =~= constraint_names(model.constraints));
    lemma_bounded(start, model.variables, model.variables.len(), i);
    let cs = preprocessed(model).constraints;
    let wanted = bound_constraint(model.variables[i].name, model.variables[i].upper_bound.unwrap());
    let k = choose|k: int| 0 <= k < cs.len() && #[trigger] cs[k] == wanted;
    assert forall|j: int| 0 <= j < cs.len() && (#[trigger] cs[j]).name == bound_name(
        model.variables[i].name,
    ) implies j == k by {
        assert(constraint_names(cs)[j] == constraint_names(cs)[k]);
    }
}

/// Adding a constraint lengthens the list by one at most.
pub proof fn lemma_with_constraint_len(constraints: Seq<ConstraintView>, constraint: ConstraintView)
    ensures
        constraints.len() <= with_constraint(constraints, constraint).len() <= constraints.len() + 1,
{
    let names = constraint_names(constraints);
    if names.contains(constraint.name) {
        let i = names.index_of(constraint.name);
        assert(0 <= i < constraints.len());
    }
}

/// The bound constraints of `count` variables lengthen the list by `count`
/// at most.
pub proof fn lemma_bounded_len(constraints: Seq<ConstraintView>, variables: Seq<VariableView>, count: nat)
    ensures
        constraints.len() <= bounded(constraints, variables, count).len() <= constraints.len() + count,
    decreases count,
{
    if count > 0 {
        lemma_bounded_len(constraints, variables, (count - 1) as nat);
        let before = bounded(constraints, variables, (count - 1) as nat);
        let v = variables[count - 1];
        if v.upper_bound.is_some() {
            lemma_with_constraint_len(before, bound_constraint(v.name, v.upper_bound.unwrap()));
        }
    }
}

/// The variables of a model, each under its name.
#[derive(Debug)]
struct VariableHandler {
    variables: Vec<Variable>,
}

impl View for VariableHandler {
    type V = Seq<VariableView>;

    closed spec fn view(&self) -> Seq<VariableView> {
        Seq::new(self.variables@.len(), |i: int| self.variables@[i]@)
    }
}

impl VariableHandler {
    /// No name occurs twice.
    closed spec fn wf(&self) -> bool {
        variable_names(self@).no_duplicates()
    }

    fn new() -> (h: VariableHandler)
        ensures
            h.wf(),
            h@ == Seq::<VariableView>::empty(),
    {
        let h = VariableHandler { variables: Vec::new() };
        assert(h@ =~= Seq::<VariableView>::empty());
        h
    }

    /// Puts `variable` in the place of the variable of the same name, or at
    /// the end.
    fn add(&mut self, variable: Variable)
        requires
            old(self).wf(),
        ensures
            final(self).wf(),
            final(self)@ == with_variable(old(self)@, variable@),
    {
        let ghost names = variable_names(self@);
        let mut i: usize = 0;
        while i < self.variables.len()
            invariant
                i <= self.variables.len(),
                *self == *old(self),
                names == variable_names(self@),
                names.no_duplicates(),
                forall|k: int| 0 <= k < i ==> #[trigger] names[k] != variable@.name,
            decreases self.variables.len() - i,
        {
            if self.variables[i].name == variable.name {
                proof {
                    assert(names[i as int] == variable@.name);
                    assert(names.contains(variable@.name));
                }
                self.variables.set(i, variable);
                assert(self@ =~= old(self)@.update(i as int, variable@));
                assert(variable_names(self@) =~= names);
                return ;
            }
            i += 1;
        }
        self.variables.push(variable);
        assert(self@ =~= old(self)@.push(variable@));
        assert(variable_names(self@) =~= names.push(variable@.name));
    }
}

/// The constraints of a model, each under its name.
#[derive(Debug)]
struct ConstraintHandler {
    constraints: Vec<Constraint>,
}

impl View for ConstraintHandler {
    type V = Seq<ConstraintView>;

    closed spec fn view(&self) -> Seq<ConstraintView> {
        Seq::new(self.constraints@.len(), |i: int| self.constraints@[i]@)
    }
}

impl ConstraintHandler {
    /// No name occurs twice, and every constraint is well formed.
    closed spec fn wf(&self) -> bool {
        &&& constraint_names(self@).no_duplicates()
        &&& forall|i: int| 0 <= i < self.constraints@.len() ==> (#[trigger] self.constraints@[i]).wf()
    }

    fn new() -> (h: ConstraintHandler)
        ensures
            h.wf(),
            h@ == Seq::<ConstraintView>::empty(),
    {
        let h = ConstraintHandler { constraints: Vec::new() };
        assert(h@ =~= Seq::<ConstraintView>::empty());
        h
    }

    /// Puts `constraint` in the place of the constraint of the same name, or
    /// at the end.
    fn add(&mut self, constraint: Constraint)
        requires
            old(self).wf(),
            constraint.wf(),
        ensures
            final(self).wf(),
            final(self)@ == with_constraint(old(self)@, constraint@),
    {
        let ghost names = constraint_names(self@);
        let mut i: usize = 0;
        while i < self.constraints.len()
            invariant
                i <= self.constraints.len(),
                *self == *old(self),
                names == constraint_names(self@),
                names.no_duplicates(),
                old(self).wf(),
                constraint.wf(),
                forall|k: int| 0 <= k < i ==> #[trigger] names[k] != constraint@.name,
            decreases self.constraints.len() - i,
        {
            if self.constraints[i].name == constraint.name {
                proof {
                    assert(names[i as int] == constraint@.name);
                    assert(names.contains(constraint@.name));
                }
                self.constraints.set(i, constraint);
                assert(self@ =~= old(self)@.update(i as int, constraint@));
                assert(constraint_names(self@) =~= names);
                assert forall|k: int| 0 <= k < self.constraints@.len() implies (
                #[trigger] self.constraints@[k]).wf() by {
                    if k != i {
                        assert(old(self).constraints@[k].wf());
                    }
                }
                return ;
            }
            i += 1;
        }
        self.constraints.push(constraint);
        assert(self@ =~= old(self)@.push(constraint@));
        assert(constraint_names(self@) =~= names.push(constraint@.name));
    }

    /// Multiplies every constraint with a negative right-hand side by -1.
    fn fix_negative_rhs(&mut self)
        requires
            old(self).wf(),
        ensures
            final(self).wf(),
            final(self)@ == normalized_constraints(old(self)@),
    {
        let mut i: usize = 0;
        while i < self.constraints.len()
            invariant
                i <= self.constraints.len(),
                self.constraints@.len() == old(self).constraints@.len(),
                old(self).wf(),
                forall|k: int|
                    0 <= k < self.constraints@.len() ==> (#[trigger] self.constraints@[k]).wf(),
                forall|k: int|
                    0 <= k < i ==> (#[trigger] self.constraints@[k])@ == old(
                        self,
                    ).constraints@[k]@.normalized(),
                forall|k: int|
                    i <= k < self.constraints@.len() ==> (#[trigger] self.constraints@[k])@ == old(
                        self,
                    ).constraints@[k]@,
            decreases self.constraints.len() - i,
        {
            if self.constraints[i].rhs().is_negative() {
                self.constraints[i].fix_negative_rhs();
            }
            i += 1;
        }
        proof {
            assert(self@ =~= normalized_constraints(old(self)@));
            assert(constraint_names(self@) =~= constraint_names(old(self)@));
        }
    }

    /// Adds the constraints that the bounds of `variable` call for: one for
    /// an upper bound. A lower bound adds nothing.
    fn add_bounds_constraints(&mut self, variable: &Variable)
        requires
            old(self).wf(),
        ensures
            final(self).wf(),
            final(self)@ == with_bound(old(self)@, variable@),
    {
        if variable.upper_bound.is_some() {
            self.add_upper_bound_constraint(variable);
        }
    }

    /// Adds the constraint that keeps `variable` at or below its upper
    /// bound.
    fn add_upper_bound_constraint(&mut self, variable: &Variable)
        requires
            old(self).wf(),
            variable@.upper_bound.is_some(),
        ensures
            final(self).wf(),
            final(self)@ == with_constraint(
                old(self)@,
                bound_constraint(variable@.name, variable@.upper_bound.unwrap()),
            ),
    {
        let ub: Rational = variable.upper_bound.unwrap();
        let name: String = variable.name.clone().concat("_ub");
        let mut constraint = Constraint::new(name, ConstraintType::LessThan(ub));
        constraint.set_coefficient(variable, Rational::one());
        self.add(constraint);
    }
}

/// What a model is, in mathematical terms: its variables and constraints in
/// the order in which their names first came.
pub struct ModelView {
    pub variables: Seq<VariableView>,
    pub constraints: Seq<ConstraintView>,
}

impl ModelView {
    /// No two variables share a name, and no two constraints.
    pub open spec fn wf(self) -> bool {
        &&& variable_names(self.variables).no_duplicates()
        &&& constraint_names(self.constraints).no_duplicates()
    }
}

/// A linear program.
#[derive(Debug)]
pub struct Model {
    variable_handler: VariableHandler,
    constraint_handler: ConstraintHandler,
}

impl View for Model {
    type V = ModelView;

    closed spec fn view(&self) -> ModelView {
        ModelView { variables: self.variable_handler@, constraints: self.constraint_handler@ }
    }
}

impl Clone for Model {
    fn clone(&self) -> (r: Model)
        ensures
            r@ == self@,
            r.wf() == self.wf(),
    {
        let mut variables: Vec<Variable> = Vec::new();
        let mut i: usize = 0;
        while i < self.variable_handler.variables.len()
            invariant
                i <= self.variable_handler.variables.len(),
                variables@.len() == i,
                forall|k: int|
                    0 <= k < i ==> (#[trigger] variables@[k])@ == self.variable_handler.variables@[k]@,
            decreases self.variable_handler.variables.len() - i,
        {
            variables.push(self.variable_handler.variables[i].clone());
            i += 1;
        }
        let mut constraints: Vec<Constraint> = Vec::new();
        let mut j: usize = 0;
        while j < self.constraint_handler.constraints.len()
            invariant
                j <= self.constraint_handler.constraints.len(),
                constraints@.len() == j,
                forall|k: int|
                    0 <= k < j ==> (#[trigger] constraints@[k])@
                        == self.constraint_handler.constraints@[k]@ && constraints@[k].wf()
                        == self.constraint_handler.constraints@[k].wf(),
            decreases self.constraint_handler.constraints.len() - j,
        {
            constraints.push(self.constraint_handler.constraints[j].clone());
            j += 1;
        }
        let r = Model {
            variable_handler: VariableHandler { variables },
            constraint_handler: ConstraintHandler { constraints },
        };
        assert(r.variable_handler@ =~= self.variable_handler@);
        assert(r.constraint_handler@ =~= self.constraint_handler@);
        assert(r.constraint_handler.wf() == self.constraint_handler.wf()) by {
            if self.constraint_handler.wf() {
                assert forall|k: int| 0 <= k < r.constraint_handler.constraints@.len() implies (
                #[trigger] r.constraint_handler.constraints@[k]).wf() by {
                    assert(self.constraint_handler.constraints@[k].wf());
                }
            }
            if r.constraint_handler.wf() {
                assert forall|k: int| 0 <= k < self.constraint_handler.constraints@.len() implies (
                #[trigger] self.constraint_handler.constraints@[k]).wf() by {
                    assert(r.constraint_handler.constraints@[k].wf());
                }
            }
        }
        r
    }
}

impl Model {
    /// Names are distinct and every constraint is well formed.
    pub closed spec fn wf(&self) -> bool {
        self.variable_handler.wf() && self.constraint_handler.wf()
    }

    /// In a well-formed model no two variables share a name, and no two
    /// constraints.
    pub proof fn lemma_wf(&self)
        requires
            self.wf(),
        ensures
            self@.wf(),
    {
    }

    /// A model without variables and constraints.
    pub fn new() -> (m: Model)
        ensures
            m.wf(),
            m@ == (ModelView {
                variables: Seq::<VariableView>::empty(),
                constraints: Seq::<ConstraintView>::empty(),
            }),
    {
        Model { variable_handler: VariableHandler::new(), constraint_handler: ConstraintHandler::new() }
    }

    /// The variables, in order.
    pub fn variables(&self) -> (v: &Vec<Variable>)
        ensures
            v@.len() == self@.variables.len(),
            forall|i: int| 0 <= i < v@.len() ==> (#[trigger] v@[i])@ == self@.variables[i],
    {
        &self.variable_handler.variables
    }

    /// The constraints, in order.
    pub fn constraints(&self) -> (c: &Vec<Constraint>)
        ensures
            c@.len() == self@.constraints.len(),
            forall|i: int| 0 <= i < c@.len() ==> (#[trigger] c@[i])@ == self@.constraints[i],
            self.wf() ==> forall|i: int| 0 <= i < c@.len() ==> (#[trigger] c@[i]).wf(),
    {
        &self.constraint_handler.constraints
    }

    /// Whether the solver can honour the bounds of every variable.
    pub fn has_supported_bounds(&self) -> (b: bool)
        ensures
            b == all_supported(self@.variables),
    {
        let mut i: usize = 0;
        while i < self.variable_handler.variables.len()
            invariant
                i <= self.variable_handler.variables@.len(),
                forall|k: int| 0 <= k < i ==> (#[trigger] self@.variables[k]).supported(),
            decreases self.variable_handler.variables.len() - i,
        {
            if !self.variable_handler.variables[i].has_supported_bounds() {
                assert(!self@.variables[i as int].supported());
                return false;
            }
            i += 1;
        }
        true
    }

    /// Multiplies every constraint with a negative right-hand side by -1.
    pub fn fix_negative_rhs(&mut self)
        requires
            old(self).wf(),
        ensures
            final(self).wf(),
            final(self)@ == (ModelView {
                constraints: normalized_constraints(old(self)@.constraints),
                ..old(self)@
            }),
    {
        self.constraint_handler.fix_negative_rhs();
    }

    /// Adds for every variable, in order, the constraints that its bounds
    /// call for.
    pub fn add_bounds_constraints(&mut self)
        requires
            old(self).wf(),
        ensures
            final(self).wf(),
            final(self)@ == (ModelView {
                constraints: bounded(
                    old(self)@.constraints,
                    old(self)@.variables,
                    old(self)@.variables.len(),
                ),
                ..old(self)@
            }),
    {
        let mut i: usize = 0;
        while i < self.variable_handler.variables.len()
            invariant
                i <= self.variable_handler.variables@.len(),
                self.wf(),
                self.variable_handler == old(self).variable_handler,
                self@.constraints == bounded(old(self)@.constraints, old(self)@.variables, i as nat),
            decreases self.variable_handler.variables.len() - i,
        {
            self.constraint_handler.add_bounds_constraints(&self.variable_handler.variables[i]);
            i += 1;
        }
    }

    /// Adds a variable; it takes the place of an earlier one of the same
    /// name.
    pub fn add_variable(&mut self, variable: Variable)
        requires
            old(self).wf(),
        ensures
            final(self).wf(),
            final(self)@ == (ModelView {
                variables: with_variable(old(self)@.variables, variable@),
                ..old(self)@
            }),
    {
        self.variable_handler.add(variable);
    }

    /// Adds a constraint; it takes the place of an earlier one of the same
    /// name.
    pub fn add_constraint(&mut self, constraint: Constraint)
        requires
            old(self).wf(),
            constraint.wf(),
        ensures
            final(self).wf(),
            final(self)@ == (ModelView {
                constraints: with_constraint(old(self)@.constraints, constraint@),
                ..old(self)@
            }),
    {
        self.constraint_handler.add(constraint);
    }
}

} // verus!
