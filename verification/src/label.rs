use vstd::prelude::*;

verus! {

/// Gender labels for binary male/female classification.
#[derive(Clone, Copy, Debug, PartialEq, Eq, Structural)]
pub enum Label {
    Male,
    Female,
}

/// The class index of a label, as used for the network's outputs.
pub open spec fn label_index(l: Label) -> nat {
    match l {
        Label::Male => 0,
        Label::Female => 1,
    }
}

/// The label of a class index: 0 is `Male`, every other index `Female`.
pub open spec fn label_of_index(i: nat) -> Label {
    if i == 0 {
        Label::Male
    } else {
        Label::Female
    }
}

/// The text of a gender column that names a label.
pub open spec fn gender_label(text: Seq<char>) -> Option<Label> {
    if text == seq!['m', 'a', 'l', 'e'] {
        Some(Label::Male)
    } else if text == seq!['f', 'e', 'm', 'a', 'l', 'e'] {
        Some(Label::Female)
    } else {
        None
    }
}

impl Label {
    /// Human-readable name of the class.
    pub fn name(self) -> (r: &'static str)
        ensures
            r@ == (match self {
                Label::Male => "Male"@,
                Label::Female => "Female"@,
            }),
    {
        match self {
            Label::Male => "Male",
            Label::Female => "Female",
        }
    }

    /// Number of classes.
    pub fn count() -> (r: usize)
        ensures
            r == 2,
    {
        2
    }

    /// The class index of this label.
    pub fn index(self) -> (r: u32)
        ensures
            r == label_index(self),
    {
        match self {
            Label::Male => 0,
            Label::Female => 1,
        }
    }

    /// The label predicted by a class index: 0 is `Male`, anything else `Female`.
    pub fn from_index(idx: u32) -> (r: Label)
        ensures
            r == label_of_index(idx as nat),
    {
        if idx == 0 {
            Label::Male
        } else {
            Label::Female
        }
    }

    /// The label named by a gender column (`"male"` or `"female"`), if any.
    pub fn from_gender(text: &[char]) -> (r: Option<Label>)
        ensures
            r == gender_label(text@),
    {
        let male = ['m', 'a', 'l', 'e'];
        let female = ['f', 'e', 'm', 'a', 'l', 'e'];
        if chars_equal(text, &male) {
            assert(text@ == seq!['m', 'a', 'l', 'e']);
            Some(Label::Male)
        } else if chars_equal(text, &female) {
            assert(text@ == seq!['f', 'e', 'm', 'a', 'l', 'e']);
            assert(text@ != seq!['m', 'a', 'l', 'e']);
            Some(Label::Female)
        } else {
            proof {
                assert(male@ == seq!['m', 'a', 'l', 'e']);
                assert(female@ == seq!['f', 'e', 'm', 'a', 'l', 'e']);
            }
            None
        }
    }
}

/// Whether two character slices are equal.
pub fn chars_equal(a: &[char], b: &[char]) -> (r: bool)
    ensures
        r == (a@ == b@),
{
    if a.len() != b.len() {
        return false;
    }
    let mut i: usize = 0;
    while i < a.len()
        invariant
            a@.len() == b@.len(),
            i <= a@.len(),
            forall|j: int| 0 <= j < i ==> a@[j] == b@[j],
        decreases a@.len() - i,
    {
        if a[i] != b[i] {
            return false;
        }
        i += 1;
    }
    assert(a@ =~= b@);
    true
}

/// Decoding a label's index gives the label back.
pub proof fn lemma_index_round_trip(l: Label)
    ensures
        label_of_index(label_index(l)) == l,
        label_index(l) < 2,
{
}

/// Every class index below the class count names a different label.
pub proof fn lemma_index_injective(i: nat, j: nat)
    requires
        i < 2,
        j < 2,
        label_of_index(i) == label_of_index(j),
    ensures
        i == j,
{
}

} // verus!
