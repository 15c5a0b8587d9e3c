use vstd::prelude::*;
use crate::scalar::Scalar;
use crate::vector::{Vector, all_finite, dot_spec, largest_spec, scaled_spec, sum_spec, zeros_spec};
use crate::sparse_symmetric_matrix::SparseSymmetricMatrix;
use crate::sparse_row_matrix::SparseRowMatrix;
use crate::preconditioner::{Preconditioner, backward, factorization, forward};

verus! {

/// The outcome of a solve.
#[derive(Clone, Debug)]
pub struct SolverResult<T> {
    /// The residual fell below the tolerance.
    pub completed: bool,
    pub iterations: usize,
    pub best_guess: Vector<T>,
}

pub const MAX_ITERATIONS: usize = 100;

/// The tolerance is this share (1/100000) of the right-hand side's largest
/// magnitude.
pub const TOLERANCE_NUMERATOR: u32 = 1;
pub const TOLERANCE_DENOMINATOR: u32 = 100000;

/// `M^-1 v` for the factor `p`: the forward, then the backward solve.
pub open spec fn precondition<T: Scalar>(p: Preconditioner<T>, v: Seq<T>) -> Seq<T> {
    backward(p, forward(p, v))
}

/// Conjugate-gradient steps from step `iteration` on, with iterate `x`,
/// residual `r`, search direction `s` and `rho = z . r`: each step moves
/// `x` and `r` along `s` and `a s`; a residual whose largest magnitude falls
/// below `tolerance` completes the solve with that iterate; otherwise the
/// direction is renewed from the preconditioned residual. After
/// `MAX_ITERATIONS` steps the solve ends incomplete with the last iterate.
///
/// The vector operations take finite operands only: where a vector or
/// factor about to be used is not finite, the solve ends there, incomplete,
/// with the last iterate and the number of steps taken.
pub open spec fn pcg_from<T: Scalar>(
    p: Preconditioner<T>,
    a: SparseRowMatrix<T>,
    x: Seq<T>,
    r: Seq<T>,
    s: Seq<T>,
    rho: T,
    tolerance: T,
    iteration: nat,
) -> (bool, nat, Seq<T>)
    decreases MAX_ITERATIONS - iteration,
{
    if iteration >= MAX_ITERATIONS {
        (false, MAX_ITERATIONS as nat, x)
    } else {
        let w = a.product(s);
        let alpha = rho.over_spec(dot_spec(s, w));
        let step = scaled_spec(s, alpha);
        let x1 = sum_spec(x, step);
        let back = scaled_spec(w, alpha.negated_spec());
        let r1 = sum_spec(r, back);
        if !all_finite(w) || !alpha.is_finite_spec() || !all_finite(step) || !all_finite(x1)
            || !alpha.negated_spec().is_finite_spec() || !all_finite(back) || !all_finite(r1) {
            (false, iteration, x)
        } else if largest_spec(r1).less_than_spec(tolerance) {
            (true, iteration + 1, x1)
        } else {
            let z = precondition(p, r1);
            let rho1 = dot_spec(z, r1);
            let beta = rho1.over_spec(rho);
            let turn = scaled_spec(s, beta);
            let s1 = sum_spec(z, turn);
            if !all_finite(z) || !beta.is_finite_spec() || !all_finite(turn) || !all_finite(s1) {
                (false, iteration + 1, x1)
            } else {
                pcg_from(p, a, x1, r1, s1, rho1, tolerance, iteration + 1)
            }
        }
    }
}

/// The outcome of the preconditioned conjugate-gradient solve of `a x = rhs`
/// with factor `p`, as `(completed, iterations, best_guess)`.
pub open spec fn pcg<T: Scalar>(p: Preconditioner<T>, a: SparseRowMatrix<T>, rhs: Seq<T>) -> (bool, nat, Seq<T>) {
    let residual = largest_spec(rhs);
    let z = precondition(p, rhs);
    let rho = dot_spec(z, rhs);
    let x = zeros_spec(rhs.len());
    if residual.is_zero_spec() {
        (false, 0, rhs)
    } else if !all_finite(z) || rho.is_zero_spec() || !rho.is_normal_spec() || !all_finite(x) {
        (false, 0, rhs)
    } else {
        let tolerance = T::ratio_spec(TOLERANCE_NUMERATOR, TOLERANCE_DENOMINATOR).times_spec(residual);
        pcg_from(p, a, x, rhs, z, rho, tolerance, 0)
    }
}

/// Solves `m x = rhs` by conjugate gradients preconditioned with the
/// modified incomplete Cholesky factor of `m`.
///
/// A zero right-hand side, or a first preconditioned residual whose product
/// with the residual is not a normal number, ends the solve at once,
/// incomplete, with `rhs` as the guess. Otherwise the guess is the last
/// iterate: reached within tolerance, or after `MAX_ITERATIONS` steps, or
/// where an intermediate value stops being finite.
pub fn solver<T: Scalar>(m: &SparseSymmetricMatrix<T>, rhs: &Vector<T>) -> (result: SolverResult<T>)
    requires
        m.well_formed(),
        rhs.len_spec() == m.dim(),
        all_finite(rhs.0@),
    ensures
        result.best_guess.len_spec() == rhs.len_spec(),
        result.iterations <= MAX_ITERATIONS,
        result.completed ==> 1 <= result.iterations,
        largest_spec(rhs.0@).is_zero_spec() ==> !result.completed && result.iterations == 0
            && result.best_guess.0@ == rhs.0@,
        // the factor and the product form are those that `m` determines
        !largest_spec(rhs.0@).is_zero_spec() ==> exists|p: Preconditioner<T>, a: SparseRowMatrix<T>|
            {
                &&& p.well_formed()
                &&& p.has_pattern_of(*m)
                &&& p.values@ == factorization(*m).0
                &&& p.inverse_diagonals@ == factorization(*m).1
                &&& a.well_formed()
                &&& a.represents(*m)
                &&& #[trigger] pcg(p, a, rhs.0@) == (
                    result.completed,
                    result.iterations as nat,
                    result.best_guess.0@,
                )
            },
{
    let n = rhs.0.len();
    let mut r = rhs.copied();
    let residual_out = r.largest_absolute_value();
    if residual_out.is_zero() {
        return SolverResult { completed: false, iterations: 0, best_guess: r };
    }

    let ic_factor = Preconditioner::new(m);
    let srm = SparseRowMatrix::new(m);
    let z = ic_factor.apply(&r);
    let mut result = Vector::zeros(n);
    if !z.is_finite() {
        let stopped = SolverResult { completed: false, iterations: 0, best_guess: r };
        assert(pcg(ic_factor, srm, rhs.0@) == (stopped.completed, stopped.iterations as nat, stopped.best_guess.0@));
        return stopped;
    }
    let mut rho = z.dot(&r);
    if rho.is_zero() || !rho.is_normal() || !result.is_finite() {
        let stopped = SolverResult { completed: false, iterations: 0, best_guess: r };
        assert(pcg(ic_factor, srm, rhs.0@) == (stopped.completed, stopped.iterations as nat, stopped.best_guess.0@));
        return stopped;
    }

    let tolerance = T::ratio(TOLERANCE_NUMERATOR, TOLERANCE_DENOMINATOR).times(residual_out);
    let mut s = z;
    let ghost target = pcg_from(ic_factor, srm, result.0@, r.0@, s.0@, rho, tolerance, 0);
    assert(target == pcg(ic_factor, srm, rhs.0@));

    let mut iteration: usize = 0;
    while iteration < MAX_ITERATIONS
        invariant
            ic_factor.well_formed(),
            ic_factor.length == n,
            srm.well_formed(),
            srm.rows() == n,
            r.len_spec() == n,
            rhs.len_spec() == n,
            s.len_spec() == n,
            result.len_spec() == n,
            all_finite(r.0@),
            all_finite(s.0@),
            all_finite(result.0@),
            iteration <= MAX_ITERATIONS,
            pcg_from(ic_factor, srm, result.0@, r.0@, s.0@, rho, tolerance, iteration as nat) == target,
            target == pcg(ic_factor, srm, rhs.0@),
            ic_factor.has_pattern_of(*m),
            ic_factor.values@ == factorization(*m).0,
            ic_factor.inverse_diagonals@ == factorization(*m).1,
            srm.represents(*m),
        decreases MAX_ITERATIONS - iteration,
    {
        let ghost x = result.0@;
        let w = srm.apply(&s);
        if !w.is_finite() {
            return stop(&ic_factor, &srm, rhs, iteration, result);
        }
        let alpha = rho.over(s.dot(&w));
        if !alpha.is_finite() {
            return stop(&ic_factor, &srm, rhs, iteration, result);
        }
        let step = s.scale(alpha);
        if !step.is_finite() {
            return stop(&ic_factor, &srm, rhs, iteration, result);
        }
        let moved = result.add(&step);
        if !moved.is_finite() {
            return stop(&ic_factor, &srm, rhs, iteration, result);
        }
        let negated = alpha.negated();
        if !negated.is_finite() {
            return stop(&ic_factor, &srm, rhs, iteration, result);
        }
        let back = w.scale(negated);
        if !back.is_finite() {
            return stop(&ic_factor, &srm, rhs, iteration, result);
        }
        let residual = r.add(&back);
        if !residual.is_finite() {
            return stop(&ic_factor, &srm, rhs, iteration, result);
        }
        result = moved;
        r = residual;
        if r.largest_absolute_value().less_than(tolerance) {
            let done = SolverResult { completed: true, iterations: iteration + 1, best_guess: result };
            assert(pcg(ic_factor, srm, rhs.0@) == (done.completed, done.iterations as nat, done.best_guess.0@));
            return done;
        }
        let z = ic_factor.apply(&r);
        if !z.is_finite() {
            return stop(&ic_factor, &srm, rhs, iteration + 1, result);
        }
        let rho_new = z.dot(&r);
        let beta = rho_new.over(rho);
        if !beta.is_finite() {
            return stop(&ic_factor, &srm, rhs, iteration + 1, result);
        }
        let turn = s.scale(beta);
        if !turn.is_finite() {
            return stop(&ic_factor, &srm, rhs, iteration + 1, result);
        }
        let renewed = z.add(&turn);
        if !renewed.is_finite() {
            return stop(&ic_factor, &srm, rhs, iteration + 1, result);
        }
        s = renewed;
        rho = rho_new;
        iteration = iteration + 1;
    }

    let exhausted = SolverResult { completed: false, iterations: MAX_ITERATIONS, best_guess: result };
    assert(pcg(ic_factor, srm, rhs.0@) == (exhausted.completed, exhausted.iterations as nat, exhausted.best_guess.0@));
    exhausted
}

/// Ends the solve incomplete after `iterations` steps with iterate `x`.
fn stop<T: Scalar>(
    p: &Preconditioner<T>,
    a: &SparseRowMatrix<T>,
    rhs: &Vector<T>,
    iterations: usize,
    x: Vector<T>,
) -> (result: SolverResult<T>)
    requires
        pcg(*p, *a, rhs.0@) == (false, iterations as nat, x.0@),
    ensures
        result.best_guess == x,
        result.iterations == iterations,
        !result.completed,
        pcg(*p, *a, rhs.0@) == (result.completed, result.iterations as nat, result.best_guess.0@),
{
    SolverResult { completed: false, iterations, best_guess: x }
}

} // verus!
