use vstd::prelude::*;

verus! {

/// The number of distinct variables: indices fit the bits of one `u64` word.
pub const VAR_CAPACITY: u8 = 64;

/// A propositional variable: an opaque handle around a small index.
///
/// Invariant: the index is below [`VAR_CAPACITY`]; `new` rejects anything
/// larger, and no other constructor exists.
#[derive(Clone, Copy, PartialEq, Eq, Structural, Debug, Hash)]
pub struct Var {
    index: u8,
}

impl Var {
    /// The index this variable wraps; always below [`VAR_CAPACITY`].
    pub closed spec fn spec_index(self) -> u8 {
        self.index
    }

    /// Every reachable `Var` satisfies this bound.
    #[verifier::type_invariant]
    pub open spec fn wf(self) -> bool {
        self.spec_index() < VAR_CAPACITY
    }

    /// The (ghost) variable with the given index.
    pub closed spec fn spec_new(index: u8) -> Var {
        Var { index }
    }

    /// `spec_new` yields the variable with exactly the requested index.
    pub proof fn lemma_spec_new(index: u8)
        ensures
            Var::spec_new(index).spec_index() == index,
    {
    }

    /// Two variables with the same index are the same variable.
    pub proof fn lemma_index_injective(a: Var, b: Var)
        ensures
            (a == b) <==> (a.spec_index() == b.spec_index()),
    {
    }

    /// Builds the variable with the given index, rejecting indices at or
    /// beyond the fixed capacity.
    pub fn new(index: u8) -> (r: Option<Self>)
        ensures
            r is Some <==> index < VAR_CAPACITY,
            r matches Some(v) ==> v.wf() && v.spec_index() == index,
    {
        if index < VAR_CAPACITY {
            Some(Self { index })
        } else {
            None
        }
    }

    /// Returns the wrapped index.
    pub fn index(self) -> (r: u8)
        ensures
            r == self.spec_index(),
    {
        self.index
    }

    /// The character for one decimal digit.
    pub open spec fn digit_char(d: u8) -> char {
        if d == 0 {
            '0'
        } else if d == 1 {
            '1'
        } else if d == 2 {
            '2'
        } else if d == 3 {
            '3'
        } else if d == 4 {
            '4'
        } else if d == 5 {
            '5'
        } else if d == 6 {
            '6'
        } else if d == 7 {
            '7'
        } else if d == 8 {
            '8'
        } else {
            '9'
        }
    }

    /// How this variable prints: a `v` followed by its decimal index.
    pub open spec fn spec_render(self) -> Seq<char> {
        if self.spec_index() < 10 {
            seq!['v', Self::digit_char(self.spec_index())]
        } else {
            seq![
                'v',
                Self::digit_char(self.spec_index() / 10),
                Self::digit_char(self.spec_index() % 10),
            ]
        }
    }

    /// One decimal digit as text.
    fn digit_str(d: u8) -> (r: &'static str)
        requires
            d < 10,
        ensures
            r@ == seq![Self::digit_char(d)],
    {
        let r: &'static str = match d {
            0 => "0",
            1 => "1",
            2 => "2",
            3 => "3",
            4 => "4",
            5 => "5",
            6 => "6",
            7 => "7",
            8 => "8",
            _ => "9",
        };
        proof {
            reveal_strlit("0");
            reveal_strlit("1");
            reveal_strlit("2");
            reveal_strlit("3");
            reveal_strlit("4");
            reveal_strlit("5");
            reveal_strlit("6");
            reveal_strlit("7");
            reveal_strlit("8");
            reveal_strlit("9");
            assert(r@ =~= seq![Self::digit_char(d)]);
        }
        r
    }

    /// Renders the variable as `v` followed by its decimal index.
    pub fn render(self) -> (r: String)
        ensures
            r@ == self.spec_render(),
    {
        proof {
            use_type_invariant(self);
        }
        let i = self.index();
        let mut s = <String as vstd::string::StringExecFns>::from_str("v");
        proof {
            reveal_strlit("v");
        }
        if i < 10 {
            vstd::string::StringExecFns::append(&mut s, Self::digit_str(i));
            proof {
                assert(s@ =~= self.spec_render());
            }
        } else {
            vstd::string::StringExecFns::append(&mut s, Self::digit_str(i / 10));
            vstd::string::StringExecFns::append(&mut s, Self::digit_str(i % 10));
            proof {
                assert(s@ =~= self.spec_render());
            }
        }
        s
    }
}

} // verus!
