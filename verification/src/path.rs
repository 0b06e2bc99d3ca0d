use vstd::prelude::*;

verus! {

/// One step of a field path.
///
/// Steps alternate: `Into(f)` selects field `f` of an entity, and `At(k)`
/// selects the entity keyed `k` inside the collection the previous step
/// reached.
#[derive(Debug, Clone, Copy, PartialEq, Eq)]
pub enum Step {
    Into(usize),
    At(u64),
}

/// A field handle: a path from the store root to a node, resolved at every
/// access.
///
/// A path owns no data and holds no reference into the tree; reading or
/// writing through it looks the keys up again each time, so a path into a
/// removed entity simply fails with `StaleReference` instead of dangling.
#[derive(Debug, Clone, PartialEq, Eq)]
pub struct FieldPath {
    pub steps: Vec<Step>,
}

impl View for FieldPath {
    type V = Seq<Step>;

    open spec fn view(&self) -> Seq<Step> {
        self.steps@
    }
}

impl FieldPath {
    /// The empty path, addressing nothing yet.
    pub fn root() -> (p: FieldPath)
        ensures
            p@ == Seq::<Step>::empty(),
    {
        FieldPath { steps: Vec::new() }
    }

    /// Extend the path into field `f` of the entity reached so far.
    pub fn field(self, f: usize) -> (p: FieldPath)
        ensures
            p@ == self@.push(Step::Into(f)),
    {
        let mut steps = self.steps;
        steps.push(Step::Into(f));
        FieldPath { steps }
    }

    /// Extend the path to the entity keyed `k` in the collection reached so
    /// far.
    pub fn key(self, k: u64) -> (p: FieldPath)
        ensures
            p@ == self@.push(Step::At(k)),
    {
        let mut steps = self.steps;
        steps.push(Step::At(k));
        FieldPath { steps }
    }

    /// A copy of this path.
    pub fn duplicate(&self) -> (p: FieldPath)
        ensures
            p@ == self@,
    {
        let mut steps: Vec<Step> = Vec::new();
        let mut i: usize = 0;
        while i < self.steps.len()
            invariant
                i <= self.steps@.len(),
                steps@ == self.steps@.take(i as int),
            decreases self.steps@.len() - i,
        {
            steps.push(self.steps[i]);
            proof {
                assert(self.steps@.take(i as int).push(self.steps@[i as int]) =~= self.steps@.take(
                    i as int + 1,
                ));
            }
            i = i + 1;
        }
        proof {
            assert(self.steps@.take(self.steps@.len() as int) =~= self.steps@);
        }
        FieldPath { steps }
    }
}

} // verus!
