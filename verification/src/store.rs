//! The template store: labelled point sequences, all of one cardinality, none
//! held twice.
//!
//! The store keeps its templates in the order in which they were added. To a
//! reader it is a mapping from each label to the set of point sequences held
//! under it; the order only decides which of several equally near templates a
//! search reports.

use vstd::prelude::*;
use crate::geometry::Point;
use crate::matcher::MAX_POINTS;

verus! {

/// The number of points per template where nothing else is asked for.
pub const N_RESAMPLED_POINTS: usize = 32;

/// A labelled point sequence.
pub struct Template {
    pub label: String,
    pub points: Vec<Point>,
}

/// Why a point sequence was not taken as a template.
#[derive(Clone, Copy, Debug, PartialEq, Eq, Structural)]
pub enum TemplateError {
    /// The sequence has fewer points than the store's templates have.
    InsufficientPoints,
    /// The sequence has more points than the store's templates have.
    ExcessPoints,
}

/// A store of templates that all have the same number of points.
pub struct TemplateStore {
    n: usize,
    templates: Vec<Template>,
}

/// Tells whether two point sequences are equal.
pub fn same_points(a: &Vec<Point>, b: &Vec<Point>) -> (same: bool)
    ensures
        same == (a@ == b@),
{
    if a.len() != b.len() {
        return false;
    }
    let mut i: usize = 0;
    while i < a.len()
        invariant
            i <= a.len(),
            a.len() == b.len(),
            forall|k: int| 0 <= k < i ==> a[k] == b[k],
        decreases a.len() - i,
    {
        if a[i].x != b[i].x || a[i].y != b[i].y {
            return false;
        }
        i = i + 1;
    }
    assert(a@ =~= b@);
    true
}

impl TemplateStore {
    /// The number of points that every template of the store has.
    pub closed spec fn spec_cardinality(&self) -> usize {
        self.n
    }

    /// The templates of the store, each as its label and its points, in the
    /// order in which they were added.
    pub closed spec fn entries(&self) -> Seq<(Seq<char>, Seq<Point>)> {
        Seq::new(
            self.templates.len() as nat,
            |i: int| (self.templates[i].label@, self.templates[i].points@),
        )
    }

    /// The store holds `points` under `label`.
    pub open spec fn holds(&self, label: Seq<char>, points: Seq<Point>) -> bool {
        self.entries().contains((label, points))
    }

    /// The point sequences held under `label`.
    pub open spec fn templates_of(&self, label: Seq<char>) -> Set<Seq<Point>> {
        Set::new(|points: Seq<Point>| self.holds(label, points))
    }

    /// The store as a mapping from each label in use to the set of point
    /// sequences held under it.
    pub open spec fn view(&self) -> Map<Seq<char>, Set<Seq<Point>>> {
        Map::new(
            |label: Seq<char>| exists|points: Seq<Point>| self.holds(label, points),
            |label: Seq<char>| self.templates_of(label),
        )
    }

    /// Every template has as many points as the store asks for, no template is
    /// held twice, and the number of points is one the matcher can take.
    pub open spec fn wf(&self) -> bool {
        &&& self.spec_cardinality() <= MAX_POINTS
        &&& forall|i: int|
            0 <= i < self.entries().len() ==> (#[trigger] self.entries()[i]).1.len()
                == self.spec_cardinality()
        &&& forall|i: int, j: int|
            0 <= i < j < self.entries().len() ==> #[trigger] self.entries()[i]
                != #[trigger] self.entries()[j]
    }

    /// Makes an empty store for templates of `n` points.
    pub fn new(n: usize) -> (store: TemplateStore)
        requires
            n <= MAX_POINTS,
        ensures
            store.wf(),
            store.spec_cardinality() == n,
            store.entries().len() == 0,
    {
        TemplateStore { n: n, templates: Vec::new() }
    }

    /// The number of points that every template of the store has.
    #[verifier::when_used_as_spec(spec_cardinality)]
    pub fn cardinality(&self) -> (n: usize)
        ensures
            n == self.spec_cardinality(),
    {
        self.n
    }

    /// The number of templates held.
    pub fn len(&self) -> (count: usize)
        ensures
            count == self.entries().len(),
    {
        self.templates.len()
    }

    /// The label of the template at `index`, counting in the order of
    /// addition.
    pub fn label_at(&self, index: usize) -> (label: &String)
        requires
            index < self.entries().len(),
        ensures
            label@ == self.entries()[index as int].0,
    {
        &self.templates[index].label
    }

    /// The points of the template at `index`, counting in the order of
    /// addition.
    pub fn points_at(&self, index: usize) -> (points: &Vec<Point>)
        requires
            index < self.entries().len(),
        ensures
            points@ == self.entries()[index as int].1,
    {
        &self.templates[index].points
    }

    /// Tells whether the store holds `points` under `label`.
    pub fn contains(&self, label: &String, points: &Vec<Point>) -> (held: bool)
        ensures
            held == self.holds(label@, points@),
    {
        let mut i: usize = 0;
        while i < self.templates.len()
            invariant
                i <= self.templates.len(),
                forall|k: int| 0 <= k < i ==> self.entries()[k] != (label@, points@),
            decreases self.templates.len() - i,
        {
            if self.templates[i].label == *label && same_points(&self.templates[i].points, points) {
                assert(self.entries()[i as int] == (label@, points@));
                return true;
            }
            i = i + 1;
        }
        false
    }

    /// Adds `points` to the set held under `label`, which comes into being if
    /// the label was not in use.
    ///
    /// A sequence of another length than the store's cardinality is refused
    /// and the store is left as it was. A sequence already held under the
    /// label is not added again: `Ok(false)` says so.
    pub fn add_template(&mut self, label: String, points: Vec<Point>) -> (r: Result<
        bool,
        TemplateError,
    >)
        requires
            old(self).wf(),
        ensures
            final(self).wf(),
            final(self).spec_cardinality() == old(self).spec_cardinality(),
            points.len() < old(self).spec_cardinality() <==> r == Err::<bool, TemplateError>(
                TemplateError::InsufficientPoints,
            ),
            points.len() > old(self).spec_cardinality() <==> r == Err::<bool, TemplateError>(
                TemplateError::ExcessPoints,
            ),
            r is Err ==> final(self).entries() == old(self).entries(),
            r matches Ok(added) ==> added == !old(self).holds(label@, points@),
            r matches Ok(added) ==> final(self).entries() == (if added {
                old(self).entries().push((label@, points@))
            } else {
                old(self).entries()
            }),
            r is Ok ==> final(self)@ == old(self)@.insert(
                label@,
                old(self).templates_of(label@).insert(points@),
            ),
    {
        if points.len() < self.n {
            return Err(TemplateError::InsufficientPoints);
        }
        if points.len() > self.n {
            return Err(TemplateError::ExcessPoints);
        }
        if self.contains(&label, &points) {
            proof {
                self.lemma_view_after_add(*self, label@, points@);
            }
            return Ok(false);
        }
        let ghost before = self.entries();
        let ghost entry = (label@, points@);
        self.templates.push(Template { label: label, points: points });
        assert(self.entries() =~= before.push(entry));
        assert forall|i: int, j: int| 0 <= i < j < self.entries().len() implies #[trigger] self.entries()[i]
            != #[trigger] self.entries()[j] by {
            if j == before.len() {
                assert(before[i] != entry);
            } else {
                assert(before[i] != before[j]);
            }
        }
        proof {
            let after = self.entries();
            assert forall|l: Seq<char>, p: Seq<Point>| #[trigger]
                self.holds(l, p) <==> old(self).holds(l, p) || (l == entry.0 && p == entry.1) by {
                if after.contains((l, p)) {
                    let k = choose|k: int| 0 <= k < after.len() && after[k] == (l, p);
                    if k < before.len() {
                        assert(before[k] == (l, p));
                    }
                }
                if before.contains((l, p)) {
                    let k = choose|k: int| 0 <= k < before.len() && before[k] == (l, p);
                    assert(after[k] == (l, p));
                }
                if l == entry.0 && p == entry.1 {
                    assert(after[before.len() as int] == (l, p));
                }
            }
            old(self).lemma_view_after_add(*self, entry.0, entry.1);
        }
        Ok(true)
    }

    /// A store that holds what `self` held and `points` under `label` besides
    /// is, as a mapping, `self` with `points` inserted into the set of
    /// `label`.
    pub proof fn lemma_view_after_add(self, after: TemplateStore, label: Seq<char>, points: Seq<Point>)
        requires
            forall|l: Seq<char>, p: Seq<Point>|
                #[trigger] after.holds(l, p) <==> self.holds(l, p) || (l == label && p == points),
        ensures
            after@ == self@.insert(label, self.templates_of(label).insert(points)),
    {
        let expected = self@.insert(label, self.templates_of(label).insert(points));
        assert forall|l: Seq<char>| #[trigger] after@.dom().contains(l) <==> expected.dom().contains(l) by {
            if after@.dom().contains(l) {
                let p = choose|p: Seq<Point>| after.holds(l, p);
                if !(l == label && p == points) {
                    assert(self.holds(l, p));
                }
            }
            if expected.dom().contains(l) {
                if l == label {
                    assert(after.holds(label, points));
                } else {
                    let p = choose|p: Seq<Point>| self.holds(l, p);
                    assert(after.holds(l, p));
                }
            }
        }
        assert forall|l: Seq<char>| #[trigger] after@.dom().contains(l) implies after@[l] == expected[l] by {
            assert forall|p: Seq<Point>| after@[l].contains(p) <==> expected[l].contains(p) by {
                assert(after@[l].contains(p) <==> after.holds(l, p));
            }
            assert(after@[l] =~= expected[l]);
        }
        assert(after@ =~= expected);
    }
}

} // verus!
