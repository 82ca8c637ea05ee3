//! Recognition: a candidate is brought to its canonical form, compared with
//! every template of a store, and named after the nearest.
//!
//! Of several templates at the same least distance the one added to the store
//! first is reported.

use vstd::prelude::*;
use crate::geometry::Point;
use crate::matcher::{elastic_distance, get_weights, weighted_distance};
use crate::normalize::{normalized, scale_and_translate};
use crate::matcher::MAX_POINTS;
use crate::resample::{lemma_pointless_strokes_give_nothing, resample, resampled, strokes_of};
use crate::store::TemplateStore;

verus! {

/// The outcome of a recognition.
#[derive(Debug, PartialEq, Eq)]
pub enum Recognition {
    /// No template was there to compare with, or the candidate has no shape.
    NotRecognized,
    /// The label of the nearest template and its distance from the candidate.
    Recognized { label: String, distance: u128 },
}

/// `i` is the index of the first of `entries` whose points are nearest to
/// `probe`.
pub open spec fn is_best_match(
    entries: Seq<(Seq<char>, Seq<Point>)>,
    probe: Seq<Point>,
    starts: nat,
    n: nat,
    i: int,
) -> bool {
    &&& 0 <= i < entries.len()
    &&& forall|k: int|
        0 <= k < entries.len() ==> elastic_distance(probe, entries[i].1, starts, n)
            <= elastic_distance(probe, (#[trigger] entries[k]).1, starts, n)
    &&& forall|k: int|
        0 <= k < i ==> elastic_distance(probe, entries[i].1, starts, n) < elastic_distance(
            probe,
            (#[trigger] entries[k]).1,
            starts,
            n,
        )
}

/// The index of the first of `entries` whose points are nearest to `probe`.
pub open spec fn best_match(
    entries: Seq<(Seq<char>, Seq<Point>)>,
    probe: Seq<Point>,
    starts: nat,
    n: nat,
) -> int {
    choose|i: int| is_best_match(entries, probe, starts, n, i)
}

/// `r` is what a search of `entries` for `probe` reports: nothing where there
/// are no entries or the probe has no points, else the label and the distance
/// of the best match.
pub open spec fn reports(
    r: Recognition,
    entries: Seq<(Seq<char>, Seq<Point>)>,
    probe: Seq<Point>,
    starts: nat,
    n: nat,
) -> bool {
    match r {
        Recognition::NotRecognized => entries.len() == 0 || probe.len() == 0,
        Recognition::Recognized { label, distance } => {
            let best = best_match(entries, probe, starts, n);
            &&& entries.len() > 0
            &&& probe.len() > 0
            &&& is_best_match(entries, probe, starts, n, best)
            &&& label@ == entries[best].0
            &&& distance == elastic_distance(probe, entries[best].1, starts, n)
        },
    }
}

/// The canonical form of a candidate: its strokes resampled to at most `n`
/// points, then normalised.
pub open spec fn canonical(strokes: Seq<Seq<Point>>, total: nat, n: nat) -> Seq<Point> {
    normalized(resampled(strokes, total, n))
}

/// The first nearest entry is unique.
pub proof fn lemma_best_match_is(
    entries: Seq<(Seq<char>, Seq<Point>)>,
    probe: Seq<Point>,
    starts: nat,
    n: nat,
    i: int,
)
    requires
        is_best_match(entries, probe, starts, n, i),
    ensures
        best_match(entries, probe, starts, n) == i,
{
    let j = best_match(entries, probe, starts, n);
    assert(is_best_match(entries, probe, starts, n, j));
    if i < j {
        assert(elastic_distance(probe, entries[j].1, starts, n) < elastic_distance(
            probe,
            entries[i].1,
            starts,
            n,
        ));
        assert(elastic_distance(probe, entries[i].1, starts, n) <= elastic_distance(
            probe,
            entries[j].1,
            starts,
            n,
        ));
    } else if j < i {
        assert(elastic_distance(probe, entries[i].1, starts, n) < elastic_distance(
            probe,
            entries[j].1,
            starts,
            n,
        ));
        assert(elastic_distance(probe, entries[j].1, starts, n) <= elastic_distance(
            probe,
            entries[i].1,
            starts,
            n,
        ));
    }
}

impl Recognition {
    /// The name to show for the outcome: the label of the match, or
    /// "not recognized".
    pub fn name(&self) -> (name: String)
        ensures
            self matches Recognition::Recognized { label, .. } ==> name@ == label@,
            self is NotRecognized ==> name@ == "not recognized"@,
    {
        match self {
            Recognition::NotRecognized => "not recognized".to_owned(),
            Recognition::Recognized { label, .. } => label.clone(),
        }
    }
}

/// Searches the templates of a store for the one nearest to
/// `resampled_points`, trying the offsets below `starts` for each. A sequence
/// without points has no shape to compare and is not recognised, whatever
/// the store holds.
///
/// The cost is that of one distance per template: with `n` points a side and
/// `starts` offsets, in the order of `starts * n * n` steps each.
pub fn greedy_5(templates: &TemplateStore, resampled_points: &Vec<Point>, starts: usize) -> (r:
    Recognition)
    requires
        templates.wf(),
        resampled_points.len() <= templates.spec_cardinality(),
    ensures
        reports(
            r,
            templates.entries(),
            resampled_points@,
            starts as nat,
            templates.spec_cardinality() as nat,
        ),
{
    let count: usize = templates.len();
    if count == 0 || resampled_points.len() == 0 {
        return Recognition::NotRecognized;
    }
    let weights: Vec<u32> = get_weights(templates.cardinality());
    let ghost entries = templates.entries();
    let ghost n = templates.spec_cardinality() as nat;
    let mut best: usize = 0;
    let mut least: u128 = weighted_distance(
        resampled_points,
        templates.points_at(0),
        starts,
        &weights,
    );
    let mut i: usize = 1;
    while i < count
        invariant
            1 <= i <= count,
            count == templates.entries().len(),
            entries == templates.entries(),
            n == templates.spec_cardinality(),
            templates.wf(),
            resampled_points.len() <= templates.spec_cardinality(),
            weights.len() == templates.spec_cardinality(),
            crate::matcher::are_weights(weights@),
            best < i,
            least == elastic_distance(resampled_points@, entries[best as int].1, starts as nat, n),
            forall|k: int|
                0 <= k < i ==> least <= elastic_distance(
                    resampled_points@,
                    (#[trigger] entries[k]).1,
                    starts as nat,
                    n,
                ),
            forall|k: int|
                0 <= k < best ==> least < elastic_distance(
                    resampled_points@,
                    (#[trigger] entries[k]).1,
                    starts as nat,
                    n,
                ),
        decreases count - i,
    {
        let d: u128 = weighted_distance(resampled_points, templates.points_at(i), starts, &weights);
        if d < least {
            least = d;
            best = i;
        }
        i = i + 1;
    }
    proof {
        lemma_best_match_is(entries, resampled_points@, starts as nat, n, best as int);
    }
    Recognition::Recognized { label: templates.label_at(best).clone(), distance: least }
}

/// Brings a candidate to its canonical form: resamples its strokes, of total
/// length `total_length`, to at most `n` points and normalises them. A
/// candidate of length zero has no canonical form.
pub fn canonicalize(candidate: &Vec<Vec<Point>>, total_length: u64, n: usize) -> (r: Option<
    Vec<Point>,
>)
    requires
        n <= MAX_POINTS,
    ensures
        r is None <==> total_length == 0,
        r matches Some(points) ==> points@ == canonical(
            strokes_of(candidate@),
            total_length as nat,
            n as nat,
        ),
        r matches Some(points) ==> points.len() <= n,
{
    match resample(candidate, total_length, n) {
        None => None,
        Some(points) => {
            let mut points: Vec<Point> = points;
            scale_and_translate(&mut points);
            Some(points)
        },
    }
}

/// Recognises a candidate, whose strokes have the total length
/// `total_length`, against the templates of `store`, trying the offsets below
/// `starts` for each.
///
/// A candidate of length zero, or one whose strokes yield no sample, has no
/// shape to compare: it is not recognised, whatever the store holds. Neither
/// is any candidate against an empty store. Otherwise the label and the
/// distance of the nearest template are returned.
pub fn recognize(
    candidate: &Vec<Vec<Point>>,
    total_length: u64,
    store: &TemplateStore,
    starts: usize,
) -> (r: Recognition)
    requires
        store.wf(),
    ensures
        total_length == 0 ==> r is NotRecognized,
        canonical(
            strokes_of(candidate@),
            total_length as nat,
            store.spec_cardinality() as nat,
        ).len() == 0 ==> r is NotRecognized,
        r is Recognized ==> reports(
            r,
            store.entries(),
            canonical(strokes_of(candidate@), total_length as nat, store.spec_cardinality() as nat),
            starts as nat,
            store.spec_cardinality() as nat,
        ),
        (forall|i: int| 0 <= i < candidate.len() ==> (#[trigger] candidate[i]).len() < 2)
            ==> r is NotRecognized,
        r is NotRecognized <==> total_length == 0 || store.entries().len() == 0 || canonical(
            strokes_of(candidate@),
            total_length as nat,
            store.spec_cardinality() as nat,
        ).len() == 0,
{
    proof {
        if forall|i: int| 0 <= i < candidate.len() ==> (#[trigger] candidate[i]).len() < 2 {
            let strokes = strokes_of(candidate@);
            assert forall|i: int| 0 <= i < strokes.len() implies (#[trigger] strokes[i]).len()
                < 2 by {
                assert(candidate[i].len() < 2);
            }
            lemma_pointless_strokes_give_nothing(
                strokes,
                total_length as nat,
                store.spec_cardinality() as nat,
            );
        }
    }
    match canonicalize(candidate, total_length, store.cardinality()) {
        None => Recognition::NotRecognized,
        Some(points) => {
            greedy_5(store, &points, starts)
        },
    }
}

} // verus!
