//! What the filters of a stream of features decide: which lines pass.

use crate::cityjson::{CityJSONFeature, CityJSONFeatureView};
use crate::error::{CjseqError, Result};
use crate::namemap::find_in;
use rand::Rng;
use vstd::prelude::*;

verus! {

/// Whether a feature is kept: that it is selected, or with `exclude` that
/// it is not.
pub fn keeps(selected: bool, exclude: bool) -> (w: bool)
    ensures
        w == (selected != exclude),
{
    (selected && !exclude) || (!selected && exclude)
}

/// Whether the line `index` of a stream passes: the first line, which is
/// the header, always; another line if its feature is kept.
pub fn line_passes(index: usize, selected: bool, exclude: bool) -> (w: bool)
    ensures
        w == (index == 0 || selected != exclude),
{
    index == 0 || keeps(selected, exclude)
}

impl CityJSONFeatureView {
    /// The type of the object that the feature is named after, if it has
    /// that object.
    pub open spec fn top_type(self) -> Option<Seq<char>> {
        match find_in(self.city_objects, self.id) {
            Some(o) => Some(o.thetype),
            None => None,
        }
    }
}

/// Whether the object that the feature is named after is of the type
/// `cotype`; an error if the feature does not have that object.
pub fn filter_cotype(cjf: &CityJSONFeature, cotype: &String) -> (r: Result<bool>)
    ensures
        match cjf@.top_type() {
            Some(t) => r == Ok::<bool, CjseqError>(t == cotype@),
            None => r matches Err(CjseqError::MissingObject(name)) && name@ == cjf@.id,
        },
{
    proof {
        cjf.city_objects.lemma_get(cjf.id@);
    }
    match cjf.city_objects.get(&cjf.id) {
        Some(o) => Ok(o.thetype == *cotype),
        None => Err(CjseqError::MissingObject(cjf.id.clone())),
    }
}

/// `Rng::gen_range` on the generator of the thread, for the range from one
/// to `n`, ends included: the number drawn lies in that range.
#[verifier::external_body]
fn draw(n: u32) -> (r: u32)
    requires
        n >= 1,
    ensures
        1 <= r <= n,
{
    rand::thread_rng().gen_range(1..=n)
}

/// Whether the number drawn selects the feature: it does if it is one.
pub fn drawn_selects(r: u32) -> (selected: bool)
    ensures
        selected == (r == 1),
{
    r == 1
}

/// Whether a feature is kept when `r` is drawn for it.
pub open spec fn kept_on(r: u32, exclude: bool) -> bool {
    (r == 1) != exclude
}

/// Draws a number from one to `rand_factor` and tells whether the feature
/// is kept: with one chance in `rand_factor`, or with `exclude` with all
/// chances but that one.
pub fn filter_random(exclude: bool, rand_factor: u32) -> (w: bool)
    requires
        rand_factor >= 1,
    ensures
        exists|r: u32| 1 <= r <= rand_factor && w == #[trigger] kept_on(r, exclude),
        rand_factor == 1 ==> w == !exclude,
{
    let r = draw(rand_factor);
    let w = keeps(drawn_selects(r), exclude);
    assert(w == kept_on(r, exclude));
    w
}

} // verus!
