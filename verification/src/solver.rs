use vstd::prelude::*;

verus! {

/// The remote solvers a problem description can be addressed to.
#[derive(Clone, Copy, Debug, PartialEq, Eq, Structural)]
pub enum Solver {
    Cbc,
    Copt,
    Cplex,
    FicoXpress,
    Highs,
    Minto,
    Mosek,
    Raposa,
}

impl Solver {
    pub fn variants() -> (r: Vec<Solver>)
        ensures
            r@ == seq![
                Solver::Cbc,
                Solver::Copt,
                Solver::Cplex,
                Solver::FicoXpress,
                Solver::Highs,
                Solver::Minto,
                Solver::Mosek,
                Solver::Raposa,
            ],
    {
        let mut v: Vec<Solver> = Vec::new();
        v.push(Solver::Cbc);
        v.push(Solver::Copt);
        v.push(Solver::Cplex);
        v.push(Solver::FicoXpress);
        v.push(Solver::Highs);
        v.push(Solver::Minto);
        v.push(Solver::Mosek);
        v.push(Solver::Raposa);
        proof {
            assert(v@ =~= seq![
                Solver::Cbc,
                Solver::Copt,
                Solver::Cplex,
                Solver::FicoXpress,
                Solver::Highs,
                Solver::Minto,
                Solver::Mosek,
                Solver::Raposa,
            ]);
        }
        v
    }

    /// The solver's wire name as the job submission service expects it.
    pub fn name(&self) -> (r: &'static str)
        ensures
            self is Cbc ==> r@ == "cbc"@,
            self is Copt ==> r@ == "copt"@,
            self is Cplex ==> r@ == "cplex"@,
            self is FicoXpress ==> r@ == "fico-xpress"@,
            self is Highs ==> r@ == "highs"@,
            self is Minto ==> r@ == "minto"@,
            self is Mosek ==> r@ == "mosek"@,
            self is Raposa ==> r@ == "raposa"@,
    {
        match self {
            Solver::Cbc => "cbc",
            Solver::Copt => "copt",
            Solver::Cplex => "cplex",
            Solver::FicoXpress => "fico-xpress",
            Solver::Highs => "highs",
            Solver::Minto => "minto",
            Solver::Mosek => "mosek",
            Solver::Raposa => "raposa",
        }
    }
}

} // verus!
