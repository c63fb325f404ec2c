use vstd::prelude::*;
use rand::Rng;

verus! {

/// A number drawn uniformly from `min..=max` by `rand::thread_rng().gen_range`.
/// Trusted: `rand` documents that `gen_range` on an inclusive range returns a
/// value of that range (and panics only on an empty one, which `requires`
/// rules out). Which value comes is left open.
#[verifier::external_body]
pub(crate) fn random_int_range(min: usize, max: usize) -> (r: usize)
    requires
        min <= max,
    ensures
        min <= r <= max,
{
    rand::thread_rng().gen_range(min..=max)
}

/// Whether a run happens under continuous integration, given the value of
/// the `CI` variable that the build saw (`None` when it was unset): only the
/// exact value `"true"` counts.
pub fn is_ci(ci: Option<&str>) -> (r: bool)
    ensures
        r == (ci matches Some(s) && s@ == "true"@),
{
    match ci {
        Some(s) => {
            let seen = s.to_owned();
            let expected = "true".to_owned();
            seen == expected
        },
        None => false,
    }
}

} // verus!
