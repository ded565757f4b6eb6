//! What can go wrong, and how it is worded.
use crate::function::Signature;
use vstd::prelude::*;
use vstd::string::*;

verus! {

/// What a missing value was wanted for.
#[derive(Clone, Copy, PartialEq, Eq, Structural, Debug)]
pub enum Wanted {
    /// An argument, counted from one.
    Argument(usize),
    /// What a function that reduces leaves.
    ReducedResult,
    /// What a function that scans leaves.
    ScannedResult,
    /// What a function that folds leaves.
    FoldedResult,
}

/// A failure. `E` is what a runtime fails with.
pub enum UiuaError<E> {
    /// A function was wanted and the function stack was empty.
    NoFunction,
    /// A value was wanted and the stack was empty.
    EmptyStack(Wanted),
    /// The function to reduce with leaves more than one value.
    ReduceOutputs { function: String, outputs: usize },
    /// The function to reduce with takes more than two values.
    ReduceArguments(usize),
    /// There was no row to start reducing with.
    ReduceEmpty,
    /// An array without dimensions was to be scanned.
    ScanScalar,
    /// The function to scan with does not take two values and leave one.
    ScanSignature(Signature),
    /// Two arrays to fold over have different numbers of rows.
    FoldShapes { left: Vec<usize>, right: Vec<usize> },
    /// The function to fold with does not have the signature that the ranks ask for.
    FoldSignature { found: Signature, expected: Signature },
    /// The runtime failed.
    Runtime(E),
}

/// A failure as a mathematical value.
#[verifier::ext_equal]
pub enum ErrorView<E> {
    NoFunction,
    EmptyStack(Wanted),
    ReduceOutputs { function: Seq<char>, outputs: usize },
    ReduceArguments(usize),
    ReduceEmpty,
    ScanScalar,
    ScanSignature(Signature),
    FoldShapes { left: Seq<usize>, right: Seq<usize> },
    FoldSignature { found: Signature, expected: Signature },
    Runtime(E),
}

impl<E> View for UiuaError<E> {
    type V = ErrorView<E>;

    open spec fn view(&self) -> ErrorView<E> {
        match *self {
            UiuaError::NoFunction => ErrorView::NoFunction,
            UiuaError::EmptyStack(wanted) => ErrorView::EmptyStack(wanted),
            UiuaError::ReduceOutputs { function, outputs } => ErrorView::ReduceOutputs {
                function: function@,
                outputs,
            },
            UiuaError::ReduceArguments(args) => ErrorView::ReduceArguments(args),
            UiuaError::ReduceEmpty => ErrorView::ReduceEmpty,
            UiuaError::ScanScalar => ErrorView::ScanScalar,
            UiuaError::ScanSignature(found) => ErrorView::ScanSignature(found),
            UiuaError::FoldShapes { left, right } => ErrorView::FoldShapes {
                left: left@,
                right: right@,
            },
            UiuaError::FoldSignature { found, expected } => ErrorView::FoldSignature {
                found,
                expected,
            },
            UiuaError::Runtime(e) => ErrorView::Runtime(e),
        }
    }
}

/// The decimal digit of a number below ten.
pub open spec fn digit(n: nat) -> char {
    (48 + n) as char
}

/// A number in decimal.
pub open spec fn numeral(n: nat) -> Seq<char>
    decreases n,
{
    if n < 10 {
        seq![digit(n)]
    } else {
        numeral(n / 10).push(digit(n % 10))
    }
}

/// A signature in words: a bar, the arguments, a dot, the outputs.
pub open spec fn signature_text(sig: Signature) -> Seq<char> {
    "|"@ + numeral(sig.args as nat) + "."@ + numeral(sig.outputs as nat)
}

/// The dimensions of a shape with crosses between them.
pub open spec fn dimensions_text(shape: Seq<usize>) -> Seq<char>
    decreases shape.len(),
{
    if shape.len() == 0 {
        Seq::empty()
    } else if shape.len() == 1 {
        numeral(shape[0] as nat)
    } else {
        dimensions_text(shape.drop_last()) + " × "@ + numeral(shape.last() as nat)
    }
}

/// A shape in words: its dimensions in brackets.
pub open spec fn shape_text(shape: Seq<usize>) -> Seq<char> {
    "["@ + dimensions_text(shape) + "]"@
}

impl<E> ErrorView<E> {
    /// The wording of a failure. What the stacks lack and what a runtime fails with are not worded
    /// here.
    pub open spec fn message(self) -> Option<Seq<char>> {
        match self {
            ErrorView::NoFunction => None,
            ErrorView::EmptyStack(_) => None,
            ErrorView::ReduceOutputs { function, outputs } => Some(
                "Reduce's function must return 0 or 1 values, but "@ + function + " returns "@
                    + numeral(outputs as nat),
            ),
            ErrorView::ReduceArguments(args) => Some(
                "Cannot reduce a function that takes "@ + numeral(args as nat) + " arguments"@,
            ),
            ErrorView::ReduceEmpty => Some("Cannot reduce empty array"@),
            ErrorView::ScanScalar => Some("Cannot scan rank 0 array"@),
            ErrorView::ScanSignature(found) => Some(
                "Scan's function's signature must be |2.1, but it is "@ + signature_text(found),
            ),
            ErrorView::FoldShapes { left, right } => Some(
                "Cannot fold arrays with shapes "@ + shape_text(left) + " and "@ + shape_text(
                    right,
                ),
            ),
            ErrorView::FoldSignature { found, expected } => Some(
                "Fold's function's signature is "@ + signature_text(found)
                    + ", but its rank lists suggests a signature of "@ + signature_text(expected),
            ),
            ErrorView::Runtime(_) => None,
        }
    }
}

/// The decimal digit of a number below ten.
fn digit_str(n: usize) -> (r: &'static str)
    requires
        n < 10,
    ensures
        r@ == seq![digit(n as nat)],
{
    proof {
        reveal_strlit("0");
        reveal_strlit("1");
        reveal_strlit("2");
        reveal_strlit("3");
        reveal_strlit("4");
        reveal_strlit("5");
        reveal_strlit("6");
        reveal_strlit("7");
        reveal_strlit("8");
        reveal_strlit("9");
    }
    match n {
        0 => "0",
        1 => "1",
        2 => "2",
        3 => "3",
        4 => "4",
        5 => "5",
        6 => "6",
        7 => "7",
        8 => "8",
        _ => "9",
    }
}

/// Writes a number in decimal behind a text.
fn append_numeral(text: &mut String, n: usize)
    ensures
        final(text)@ == old(text)@ + numeral(n as nat),
    decreases n,
{
    if n >= 10 {
        append_numeral(text, n / 10);
    }
    text.append(digit_str(n % 10));
}

/// Writes a signature behind a text.
fn append_signature(text: &mut String, sig: Signature)
    ensures
        final(text)@ == old(text)@ + signature_text(sig),
{
    text.append("|");
    append_numeral(text, sig.args);
    text.append(".");
    append_numeral(text, sig.outputs);
}

/// Writes a shape behind a text.
fn append_shape(text: &mut String, shape: &Vec<usize>)
    ensures
        final(text)@ == old(text)@ + shape_text(shape@),
{
    let ghost start = text@;
    text.append("[");
    let mut i: usize = 0;
    while i < shape.len()
        invariant
            0 <= i <= shape@.len(),
            text@ == start + "["@ + dimensions_text(shape@.take(i as int)),
        decreases shape@.len() - i,
    {
        if i > 0 {
            text.append(" × ");
        }
        append_numeral(text, shape[i]);
        i = i + 1;
        assert(shape@.take(i as int).drop_last() == shape@.take(i - 1));
    }
    assert(shape@.take(i as int) == shape@);
    text.append("]");
}

impl<E> UiuaError<E> {
    /// The wording of a failure. What the stacks lack and what a runtime fails with are not worded
    /// here.
    pub fn message(&self) -> (r: Option<String>)
        ensures
            r is Some == self@.message() is Some,
            r matches Some(text) ==> text@ == self@.message()->0,
    {
        let mut text = String::new();
        match self {
            UiuaError::NoFunction => return None,
            UiuaError::EmptyStack(_) => return None,
            UiuaError::ReduceOutputs { function, outputs } => {
                text.append("Reduce's function must return 0 or 1 values, but ");
                text.append(function.as_str());
                text.append(" returns ");
                append_numeral(&mut text, *outputs);
            },
            UiuaError::ReduceArguments(args) => {
                text.append("Cannot reduce a function that takes ");
                append_numeral(&mut text, *args);
                text.append(" arguments");
            },
            UiuaError::ReduceEmpty => {
                text.append("Cannot reduce empty array");
            },
            UiuaError::ScanScalar => {
                text.append("Cannot scan rank 0 array");
            },
            UiuaError::ScanSignature(found) => {
                text.append("Scan's function's signature must be |2.1, but it is ");
                append_signature(&mut text, *found);
            },
            UiuaError::FoldShapes { left, right } => {
                text.append("Cannot fold arrays with shapes ");
                append_shape(&mut text, left);
                text.append(" and ");
                append_shape(&mut text, right);
            },
            UiuaError::FoldSignature { found, expected } => {
                text.append("Fold's function's signature is ");
                append_signature(&mut text, *found);
                text.append(", but its rank lists suggests a signature of ");
                append_signature(&mut text, *expected);
            },
            UiuaError::Runtime(_) => return None,
        }
        assert(text@ =~= self@.message()->0);
        Some(text)
    }
}

} // verus!
