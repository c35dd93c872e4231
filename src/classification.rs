//! The three-valued outcome of comparing two coefficients or two objects,
//! and the unanimity rule that lifts coefficient outcomes to whole objects.
use vstd::prelude::*;

verus! {

/// How two geometric objects (or two coefficients) relate.
#[derive(Debug, Clone, Copy, PartialEq, Eq, Structural)]
pub enum Classification {
    /// Same entity, same orientation.
    Same,
    /// Genuinely different entities.
    Different,
    /// Same entity, opposite orientation.
    Opposite,
}

/// The only fault a classification can raise.
#[derive(Debug, Clone, Copy, PartialEq, Eq, Structural)]
pub enum ClassifyError {
    /// Every coefficient position held zero on both sides: nothing to compare.
    NoInformativeCoefficients,
}

/// The two tolerance strategies of the scalar comparison.
#[derive(Debug, Clone, Copy, PartialEq, Eq, Structural)]
pub enum Tolerance {
    /// Absolute threshold: `|a-b| <= eps`, then `|a+b| <= eps`.
    Fixed,
    /// Threshold relative to the operands: `|a-b| <= |a+b|*eps`, then `|a+b| <= |a-b|*eps`.
    Dynamic,
}

/// Numeric code of a classification: `Same` is 1, `Different` 0, `Opposite` -1.
pub open spec fn code_of(c: Classification) -> int {
    match c {
        Classification::Same => 1,
        Classification::Different => 0,
        Classification::Opposite => -1,
    }
}

/// The mode string that selects the relative strategy; any other selects the fixed one.
pub open spec fn tolerance_of(mode: Seq<char>) -> Tolerance {
    if mode == "Dynamic"@ {
        Tolerance::Dynamic
    } else {
        Tolerance::Fixed
    }
}

/// The scalar rule: `Same` is tested before `Opposite`.
pub open spec fn decision(within_same: bool, within_opposite: bool) -> Classification {
    if within_same {
        Classification::Same
    } else if within_opposite {
        Classification::Opposite
    } else {
        Classification::Different
    }
}

/// Some position carries an outcome (was not zero on both sides).
pub open spec fn is_informative(s: Seq<Option<Classification>>) -> bool {
    exists|i: int| 0 <= i < s.len() && s[i] is Some
}

/// Every informative position has outcome `c`.
pub open spec fn agrees(s: Seq<Option<Classification>>, c: Classification) -> bool {
    forall|i: int| 0 <= i < s.len() && #[trigger] s[i] is Some ==> s[i] == Some(c)
}

/// The unanimous outcome of the informative positions, or `Different` where they disagree.
pub open spec fn consensus_of(s: Seq<Option<Classification>>) -> Classification {
    if exists|c: Classification| agrees(s, c) {
        choose|c: Classification| agrees(s, c)
    } else {
        Classification::Different
    }
}

/// What the unanimity rule yields on the outcomes of all positions.
pub open spec fn consensus_result(s: Seq<Option<Classification>>) -> Result<Classification, ClassifyError> {
    if is_informative(s) {
        Ok(consensus_of(s))
    } else {
        Err(ClassifyError::NoInformativeCoefficients)
    }
}

impl Classification {
    /// Numeric code used in the output mapping.
    pub fn code(&self) -> (r: i64)
        ensures
            r == code_of(*self),
    {
        match self {
            Classification::Same => 1,
            Classification::Different => 0,
            Classification::Opposite => -1,
        }
    }

    /// Classifies one coefficient pair from the two tolerance tests of its strategy:
    /// whether the difference is within tolerance, and whether the sum is.
    pub fn decide(within_same: bool, within_opposite: bool) -> (r: Classification)
        ensures
            r == decision(within_same, within_opposite),
    {
        if within_same {
            Classification::Same
        } else if within_opposite {
            Classification::Opposite
        } else {
            Classification::Different
        }
    }
}

impl Tolerance {
    /// Selects the strategy named by a mode string.
    pub fn from_mode(mode: &String) -> (r: Tolerance)
        ensures
            r == tolerance_of(mode@),
    {
        let dynamic = "Dynamic".to_owned();
        proof {
            reveal_strlit("Dynamic");
        }
        if *mode == dynamic {
            Tolerance::Dynamic
        } else {
            Tolerance::Fixed
        }
    }
}

/// Unanimity over the coefficient positions of two objects. `outcomes[i]` is `None`
/// where position `i` is zero on both sides, else the scalar outcome there.
/// The first informative outcome is the candidate; it is returned when every other
/// informative outcome equals it, and `Different` otherwise.
pub fn consensus(outcomes: &Vec<Option<Classification>>) -> (r: Result<Classification, ClassifyError>)
    ensures
        r == consensus_result(outcomes@),
{
    let n = outcomes.len();
    let mut first: Option<Classification> = None;
    let mut unanimous = true;
    let ghost mut witness: int = 0;
    let ghost mut breaker: int = 0;
    let mut i: usize = 0;
    while i < n
        invariant
            n == outcomes@.len(),
            0 <= i <= n,
            first is None <==> (forall|j: int| 0 <= j < i ==> #[trigger] outcomes@[j] is None),
            first is Some ==> 0 <= witness < i && outcomes@[witness] == first,
            first is Some && unanimous ==> (forall|j: int|
                0 <= j < i && #[trigger] outcomes@[j] is Some ==> outcomes@[j] == first),
            !unanimous ==> first is Some,
            first is Some && !unanimous ==> 0 <= breaker < i && outcomes@[breaker] is Some
                && outcomes@[breaker] != first,
        decreases n - i,
    {
        match outcomes[i] {
            None => {},
            Some(c) => {
                match first {
                    None => {
                        first = Some(c);
                        proof {
                            witness = i as int;
                        }
                    },
                    Some(f) => {
                        if c != f && unanimous {
                            unanimous = false;
                            proof {
                                breaker = i as int;
                            }
                        }
                    },
                }
            },
        }
        i = i + 1;
    }
    let ghost s = outcomes@;
    match first {
        None => {
            assert(!is_informative(s));
            Err(ClassifyError::NoInformativeCoefficients)
        },
        Some(f) => {
            assert(s[witness] is Some);
            assert(is_informative(s));
            if unanimous {
                assert(agrees(s, f));
                let ghost chosen = choose|c: Classification| agrees(s, c);
                assert(s[witness] == Some(chosen));
                Ok(f)
            } else {
                assert forall|c: Classification| !agrees(s, c) by {
                    if agrees(s, c) {
                        assert(s[witness] == Some(c));
                        assert(s[breaker] == Some(c));
                    }
                }
                Ok(Classification::Different)
            }
        },
    }
}

} // verus!
