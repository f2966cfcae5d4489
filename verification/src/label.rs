//! The closed activity-label enumeration and its integer class mapping.
//!
//! Classes are the integers 0 through 4 in the fixed order Jogging,
//! Walking, Standing, Stairs, Sitting.  Any other integer is rejected
//! explicitly; nothing falls through to a default label.

use vstd::prelude::*;
use vstd::string::StringSliceAdditionalSpecFns;

verus! {

/// One recognized activity.
#[derive(Clone, Copy, Debug, PartialEq, Eq, Structural)]
pub enum Label {
    Jogging,
    Walking,
    Standing,
    Stairs,
    Sitting,
}

/// The integer class of a label, in the fixed training order.
pub open spec fn spec_class(l: Label) -> int {
    match l {
        Label::Jogging => 0,
        Label::Walking => 1,
        Label::Standing => 2,
        Label::Stairs => 3,
        Label::Sitting => 4,
    }
}

/// The label of an integer class, if the class is in range.
pub open spec fn spec_label_of_class(c: int) -> Option<Label> {
    if c == 0 {
        Some(Label::Jogging)
    } else if c == 1 {
        Some(Label::Walking)
    } else if c == 2 {
        Some(Label::Standing)
    } else if c == 3 {
        Some(Label::Stairs)
    } else if c == 4 {
        Some(Label::Sitting)
    } else {
        None
    }
}

/// The display name of a label, as it appears on the wire.
pub open spec fn spec_label_name(l: Label) -> Seq<u8> {
    match l {
        Label::Jogging => "Jogging".spec_bytes(),
        Label::Walking => "Walking".spec_bytes(),
        Label::Standing => "Standing".spec_bytes(),
        Label::Stairs => "Stairs".spec_bytes(),
        Label::Sitting => "Sitting".spec_bytes(),
    }
}

/// The lower-case training name of a label, as it appears in the
/// labeled sample stream.
pub open spec fn spec_training_name(l: Label) -> Seq<u8> {
    match l {
        Label::Jogging => "jogging".spec_bytes(),
        Label::Walking => "walking".spec_bytes(),
        Label::Standing => "standing".spec_bytes(),
        Label::Stairs => "stairs".spec_bytes(),
        Label::Sitting => "sitting".spec_bytes(),
    }
}

impl Label {
    /// The integer class of this label.
    pub fn class(self) -> (c: u8)
        ensures
            c == spec_class(self),
    {
        match self {
            Label::Jogging => 0,
            Label::Walking => 1,
            Label::Standing => 2,
            Label::Stairs => 3,
            Label::Sitting => 4,
        }
    }

    /// The display name of this label, as emitted in classification
    /// result messages.
    pub fn name(self) -> (r: &'static str)
        ensures
            r.spec_bytes() == spec_label_name(self),
    {
        match self {
            Label::Jogging => "Jogging",
            Label::Walking => "Walking",
            Label::Standing => "Standing",
            Label::Stairs => "Stairs",
            Label::Sitting => "Sitting",
        }
    }
}

/// Maps an integer class back to its label.  Total and exhaustive over
/// 0 through 4; every other class is rejected, never silently defaulted.
pub fn label_of_class(c: i64) -> (r: Option<Label>)
    ensures
        r == spec_label_of_class(c as int),
{
    if c == 0 {
        Some(Label::Jogging)
    } else if c == 1 {
        Some(Label::Walking)
    } else if c == 2 {
        Some(Label::Standing)
    } else if c == 3 {
        Some(Label::Stairs)
    } else if c == 4 {
        Some(Label::Sitting)
    } else {
        None
    }
}

/// The label whose training name equals the given activity text, if any.
pub open spec fn spec_label_of_name(name: Seq<u8>) -> Option<Label> {
    if name == "jogging".spec_bytes() {
        Some(Label::Jogging)
    } else if name == "walking".spec_bytes() {
        Some(Label::Walking)
    } else if name == "standing".spec_bytes() {
        Some(Label::Standing)
    } else if name == "stairs".spec_bytes() {
        Some(Label::Stairs)
    } else if name == "sitting".spec_bytes() {
        Some(Label::Sitting)
    } else {
        None
    }
}

/// The label whose training name matches the given activity text, if any.
/// An unrecognized activity yields `None` and must be discarded before
/// training.
pub fn label_of_training_name(name: &[u8]) -> (r: Option<Label>)
    ensures
        r == spec_label_of_name(name@),
        r matches Some(l) ==> name@ == spec_training_name(l),
        r is None ==> forall|l: Label| name@ != spec_training_name(l),
{
    if bytes_match(name, "jogging") {
        Some(Label::Jogging)
    } else if bytes_match(name, "walking") {
        Some(Label::Walking)
    } else if bytes_match(name, "standing") {
        Some(Label::Standing)
    } else if bytes_match(name, "stairs") {
        Some(Label::Stairs)
    } else if bytes_match(name, "sitting") {
        Some(Label::Sitting)
    } else {
        proof {
            assert forall|l: Label| name@ != spec_training_name(l) by {
                match l {
                    Label::Jogging => assert(name@ != "jogging".spec_bytes()),
                    Label::Walking => assert(name@ != "walking".spec_bytes()),
                    Label::Standing => assert(name@ != "standing".spec_bytes()),
                    Label::Stairs => assert(name@ != "stairs".spec_bytes()),
                    Label::Sitting => assert(name@ != "sitting".spec_bytes()),
                }
            }
        }
        None
    }
}

/// True when the byte text equals the literal's bytes.
pub fn bytes_match(b: &[u8], lit: &str) -> (r: bool)
    ensures
        r == (b@ == lit.spec_bytes()),
{
    let lb: &[u8] = lit.as_bytes();
    if b.len() != lb.len() {
        assert(b@ != lit.spec_bytes());
        return false;
    }
    let n: usize = b.len();
    let mut i: usize = 0;
    while i < n
        invariant
            n == b@.len() == lb@.len(),
            lb@ == lit.spec_bytes(),
            0 <= i <= n,
            forall|j: int| 0 <= j < i ==> b@[j] == lb@[j],
        decreases n - i,
    {
        if b[i] != lb[i] {
            assert(b@ != lit.spec_bytes());
            return false;
        }
        i += 1;
    }
    proof {
        assert(b@ =~= lit.spec_bytes());
    }
    true
}

/// The class mapping is total and exhaustive over the five labels: every
/// label's class maps back to that label, exactly the classes 0 through 4
/// are accepted, and distinct labels never share a class.
pub proof fn lemma_label_class_bijection()
    ensures
        forall|l: Label| spec_label_of_class(#[trigger] spec_class(l)) == Some(l),
        forall|c: int| spec_label_of_class(c) is Some <==> 0 <= c <= 4,
        forall|c: int|
            #[trigger] spec_label_of_class(c) is Some ==> spec_class(
                spec_label_of_class(c).unwrap(),
            ) == c,
{
}

} // verus!
