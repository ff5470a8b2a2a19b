use vstd::prelude::*;

use crate::args::Args;
use crate::generator::bytes_eq;
use crate::text::split_tokens;
use crate::text::tokens_of;

verus! {

/// The outcome of one fuzz iteration. Anything but `Passed` ends the run.
#[derive(Clone, Copy, Debug, PartialEq, Eq, Structural)]
pub enum Status {
    Passed,
    Failed,
    PrimaryFailed,
    SecondaryFailed,
    VerifierFailed,
    DifferentOutputs,
}

impl Status {
    /// Whether this outcome ends the fuzz loop.
    pub fn failed(&self) -> (r: bool)
        ensures
            r == !(*self is Passed),
    {
        !matches!(self, Status::Passed)
    }

    /// The human-readable classification of this outcome.
    pub fn report(&self) -> (m: &'static str)
        ensures
            *self is Passed ==> m@ == ""@,
            *self is Failed ==> m@ == "Exited with non-zero exit code"@,
            *self is PrimaryFailed ==> m@ == "Primary exited with non-zero exit code"@,
            *self is SecondaryFailed ==> m@ == "Secondary exited with non-zero exit code"@,
            *self is VerifierFailed ==> m@ == "Verifier rejected the output"@,
            *self is DifferentOutputs ==> m@ == "Different outputs"@,
    {
        match self {
            Status::Passed => "",
            Status::Failed => "Exited with non-zero exit code",
            Status::PrimaryFailed => "Primary exited with non-zero exit code",
            Status::SecondaryFailed => "Secondary exited with non-zero exit code",
            Status::VerifierFailed => "Verifier rejected the output",
            Status::DifferentOutputs => "Different outputs",
        }
    }
}

// ---------------------------------------------------------------------------
// The four oracle protocols' verdicts
// ---------------------------------------------------------------------------

/// The verdict of a single run: success or a plain failure.
pub open spec fn single_verdict(success: bool) -> Status {
    if success {
        Status::Passed
    } else {
        Status::Failed
    }
}

/// Two outputs agree when their whitespace-separated tokens agree: the
/// formatting of whitespace is ignored, the token values are not.
pub open spec fn outputs_match(a: Seq<u8>, b: Seq<u8>) -> bool {
    tokens_of(a) == tokens_of(b)
}

/// The verdict of a differential comparison. A primary failure is reported
/// first, then a secondary failure, then a token mismatch; only agreement of
/// two successful runs passes.
pub open spec fn compare_verdict(
    primary_ok: bool,
    secondary_ok: bool,
    primary_out: Seq<u8>,
    secondary_out: Seq<u8>,
) -> Status {
    if !primary_ok {
        Status::PrimaryFailed
    } else if !secondary_ok {
        Status::SecondaryFailed
    } else if !outputs_match(primary_out, secondary_out) {
        Status::DifferentOutputs
    } else {
        Status::Passed
    }
}

/// The verdict of an interactive session: both the interactee and the
/// interactor must exit successfully.
pub open spec fn interactive_verdict(interactee_ok: bool, interactor_ok: bool) -> Status {
    if interactee_ok && interactor_ok {
        Status::Passed
    } else {
        Status::Failed
    }
}

/// The verdict of a post-hoc verification: a failing problem is a plain
/// failure, and otherwise the verifier's judgement decides.
pub open spec fn verify_verdict(problem_ok: bool, verifier_ok: bool) -> Status {
    if !problem_ok {
        Status::Failed
    } else if verifier_ok {
        Status::Passed
    } else {
        Status::VerifierFailed
    }
}

/// Classifies a single run.
pub fn single_status(success: bool) -> (s: Status)
    ensures
        s == single_verdict(success),
{
    if success {
        Status::Passed
    } else {
        Status::Failed
    }
}

/// Whether two outputs agree token for token, whitespace aside.
pub fn tokens_equal(a: &Vec<u8>, b: &Vec<u8>) -> (r: bool)
    ensures
        r == outputs_match(a@, b@),
{
    let ta = split_tokens(a);
    let tb = split_tokens(b);
    let ghost tav = ta@.map_values(|t: Vec<u8>| t@);
    let ghost tbv = tb@.map_values(|t: Vec<u8>| t@);
    if ta.len() != tb.len() {
        assert(tav.len() != tbv.len());
        return false;
    }
    let mut i: usize = 0;
    while i < ta.len()
        invariant
            i <= ta@.len(),
            ta@.len() == tb@.len(),
            tav == ta@.map_values(|t: Vec<u8>| t@),
            tbv == tb@.map_values(|t: Vec<u8>| t@),
            tav == tokens_of(a@),
            tbv == tokens_of(b@),
            forall|k: int| 0 <= k < i ==> tav[k] == tbv[k],
        decreases ta@.len() - i,
    {
        if !bytes_eq(&ta[i], &tb[i]) {
            assert(tav[i as int] != tbv[i as int]);
            return false;
        }
        i = i + 1;
    }
    proof {
        assert(tav =~= tbv);
    }
    true
}

/// Classifies a differential comparison of two runs on the same input.
pub fn compare_status(
    primary_ok: bool,
    secondary_ok: bool,
    primary_out: &Vec<u8>,
    secondary_out: &Vec<u8>,
) -> (s: Status)
    ensures
        s == compare_verdict(primary_ok, secondary_ok, primary_out@, secondary_out@),
{
    if !primary_ok {
        Status::PrimaryFailed
    } else if !secondary_ok {
        Status::SecondaryFailed
    } else if !tokens_equal(primary_out, secondary_out) {
        Status::DifferentOutputs
    } else {
        Status::Passed
    }
}

/// Classifies an interactive session from the two exit statuses.
pub fn interactive_status(interactee_ok: bool, interactor_ok: bool) -> (s: Status)
    ensures
        s == interactive_verdict(interactee_ok, interactor_ok),
{
    if interactee_ok && interactor_ok {
        Status::Passed
    } else {
        Status::Failed
    }
}

/// Classifies a post-hoc verification from the two exit statuses.
pub fn verify_status(problem_ok: bool, verifier_ok: bool) -> (s: Status)
    ensures
        s == verify_verdict(problem_ok, verifier_ok),
{
    if !problem_ok {
        Status::Failed
    } else if verifier_ok {
        Status::Passed
    } else {
        Status::VerifierFailed
    }
}

/// The verifier's input: the generated input, one newline, then the
/// problem's raw output.
pub fn verifier_input(input: &Vec<u8>, output: &Vec<u8>) -> (r: Vec<u8>)
    ensures
        r@ == input@ + seq![10u8] + output@,
{
    let mut r: Vec<u8> = Vec::new();
    let mut i: usize = 0;
    while i < input.len()
        invariant
            i <= input@.len(),
            r@ == input@.take(i as int),
        decreases input@.len() - i,
    {
        r.push(input[i]);
        assert(r@ =~= input@.take(i + 1));
        i = i + 1;
    }
    assert(r@ =~= input@);
    r.push(10);
    let mut j: usize = 0;
    while j < output.len()
        invariant
            j <= output@.len(),
            r@ == input@ + seq![10u8] + output@.take(j as int),
        decreases output@.len() - j,
    {
        r.push(output[j]);
        assert(r@ =~= input@ + seq![10u8] + output@.take(j + 1));
        j = j + 1;
    }
    assert(r@ =~= input@ + seq![10u8] + output@);
    r
}

/// Comparing two successful runs that wrote identical outputs never
/// reports differing outputs, whatever the exit statuses were.
pub proof fn lemma_compare_identical_outputs(primary_ok: bool, secondary_ok: bool, out: Seq<u8>)
    ensures
        compare_verdict(primary_ok, secondary_ok, out, out) != Status::DifferentOutputs,
{
}

/// A failing run is reported as that failure and never as differing
/// outputs, the primary taking precedence over the secondary.
pub proof fn lemma_compare_failure_precedence(
    primary_ok: bool,
    secondary_ok: bool,
    primary_out: Seq<u8>,
    secondary_out: Seq<u8>,
)
    ensures
        !primary_ok ==> compare_verdict(primary_ok, secondary_ok, primary_out, secondary_out)
            == Status::PrimaryFailed,
        primary_ok && !secondary_ok ==> compare_verdict(
            primary_ok,
            secondary_ok,
            primary_out,
            secondary_out,
        ) == Status::SecondaryFailed,
        !(primary_ok && secondary_ok) ==> compare_verdict(
            primary_ok,
            secondary_ok,
            primary_out,
            secondary_out,
        ) != Status::DifferentOutputs,
{
}

// ---------------------------------------------------------------------------
// Choosing the protocol
// ---------------------------------------------------------------------------

/// The configured execution protocol, each variant naming the already-built
/// executable targets it drives.
pub enum Runner {
    Single { problem: String },
    Compare { primary: String, secondary: String },
    Interactive { problem: String, interactor: String },
    Verify { problem: String, verifier: String },
}

impl Runner {
    /// Chooses the protocol from the configuration. An interactor takes
    /// precedence, then a verifier, then a comparator; with none of them the
    /// program runs alone.
    pub fn new(args: &Args) -> (r: Runner)
        ensures
            args.interactive matches Some(ref it) ==> (r matches Runner::Interactive {
                problem,
                interactor,
            } && problem@ == args.name@ && interactor@ == it@),
            args.interactive is None ==> (args.verify matches Some(ref v) ==> (r
                matches Runner::Verify { problem, verifier } && problem@ == args.name@ && verifier@
                == v@)),
            args.interactive is None && args.verify is None ==> (args.compare matches Some(ref c)
                ==> (r matches Runner::Compare { primary, secondary } && primary@ == args.name@
                && secondary@ == c@)),
            args.interactive is None && args.verify is None && args.compare is None ==> (r
                matches Runner::Single { problem } && problem@ == args.name@),
    {
        if let Some(interactor) = &args.interactive {
            Runner::Interactive { problem: args.name.clone(), interactor: interactor.clone() }
        } else if let Some(verifier) = &args.verify {
            Runner::Verify { problem: args.name.clone(), verifier: verifier.clone() }
        } else if let Some(comparator) = &args.compare {
            Runner::Compare { primary: args.name.clone(), secondary: comparator.clone() }
        } else {
            Runner::Single { problem: args.name.clone() }
        }
    }
}

} // verus!
