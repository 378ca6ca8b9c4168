//! Rigid multi-marker bodies: validating a marker set, matching one frame's
//! detections against it, and reporting which markers the pose agreed with.
//!
//! The geometry (marker corners in the reference frame, finiteness and
//! orthonormality tests on floating-point transforms) is computed by the
//! caller; this module decides, from those outcomes and the marker ids, what
//! is accepted, in which order, and which error is reported first.

use vstd::prelude::*;

verus! {

/// Outcome of the floating-point tests on one marker's transform.
#[derive(Clone, Copy, PartialEq, Eq, Structural, Debug)]
pub enum TransformCheck {
    Valid,
    NonFinite,
    NotRotation,
}

/// Why a marker set or a frame's detections were refused.
#[derive(Clone, Copy, PartialEq, Eq, Structural, Debug)]
pub enum RigidBodyError {
    /// The body has no markers.
    NoMarkers,
    /// Ids, rotations and translations differ in number.
    LengthMismatch,
    /// The marker id occurs twice in the body.
    DuplicateMarker(i32),
    /// The marker's transform holds a non-finite value.
    NonFiniteTransform(i32),
    /// The marker's rotation is not orthonormal with determinant +1.
    ImproperRotation(i32),
    /// Detected corners and ids differ in number.
    DetectionLengthMismatch,
    /// A marker of the body was detected twice in one frame.
    DuplicateDetection(i32),
    /// The detected corners of the marker hold a non-finite value.
    NonFiniteCorners(i32),
}

/// Marker `k` repeats an id of an earlier marker.
pub open spec fn repeats_earlier(ids: Seq<i32>, k: int) -> bool {
    exists|j: int| 0 <= j < k && ids[j] == ids[k]
}

/// The error that marker `k` raises, if any: a repeated id first, then the
/// transform tests.
pub open spec fn marker_fault(ids: Seq<i32>, checks: Seq<TransformCheck>, k: int) -> Option<RigidBodyError> {
    if repeats_earlier(ids, k) {
        Some(RigidBodyError::DuplicateMarker(ids[k]))
    } else {
        match checks[k] {
            TransformCheck::Valid => None,
            TransformCheck::NonFinite => Some(RigidBodyError::NonFiniteTransform(ids[k])),
            TransformCheck::NotRotation => Some(RigidBodyError::ImproperRotation(ids[k])),
        }
    }
}

/// The first fault among markers `k..`, scanning in order.
pub open spec fn first_fault(ids: Seq<i32>, checks: Seq<TransformCheck>, k: int) -> Option<RigidBodyError>
    decreases ids.len() - k,
{
    if k >= ids.len() || k < 0 {
        None
    } else {
        match marker_fault(ids, checks, k) {
            Some(e) => Some(e),
            None => first_fault(ids, checks, k + 1),
        }
    }
}

/// Whether `ids[k]` occurs among `ids[..k]`.
fn occurs_before(ids: &[i32], k: usize) -> (b: bool)
    requires
        k < ids.len(),
    ensures
        b == repeats_earlier(ids@, k as int),
{
    let mut j: usize = 0;
    while j < k
        invariant
            j <= k,
            k < ids.len(),
            forall|i: int| 0 <= i < j ==> ids@[i] != ids@[k as int],
        decreases k - j,
    {
        if ids[j] == ids[k] {
            return true;
        }
        j = j + 1;
    }
    false
}

/// Validates a marker set: it must be non-empty, give a rotation and a
/// translation per id, and then every marker in order must have a new id and
/// a transform that passed the floating-point tests (`checks`, one per marker,
/// consulted only when the counts agree). The first fault is reported.
pub fn validate_marker_set(
    marker_ids: &[i32],
    rotation_count: usize,
    translation_count: usize,
    checks: &[TransformCheck],
) -> (res: Result<(), RigidBodyError>)
    requires
        marker_ids.len() == rotation_count && marker_ids.len() == translation_count ==> checks.len()
            == marker_ids.len(),
    ensures
        res == (if marker_ids.len() == 0 {
            Err(RigidBodyError::NoMarkers)
        } else if marker_ids.len() != rotation_count || marker_ids.len() != translation_count {
            Err(RigidBodyError::LengthMismatch)
        } else {
            match first_fault(marker_ids@, checks@, 0) {
                Some(e) => Err(e),
                None => Ok(()),
            }
        }),
{
    if marker_ids.len() == 0 {
        return Err(RigidBodyError::NoMarkers);
    }
    if marker_ids.len() != rotation_count || marker_ids.len() != translation_count {
        return Err(RigidBodyError::LengthMismatch);
    }
    let n = marker_ids.len();
    let mut k: usize = 0;
    while k < n
        invariant
            n == marker_ids.len(),
            n > 0,
            n == rotation_count,
            n == translation_count,
            checks.len() == n,
            k <= n,
            first_fault(marker_ids@, checks@, 0) == first_fault(marker_ids@, checks@, k as int),
        decreases n - k,
    {
        let id = marker_ids[k];
        if occurs_before(marker_ids, k) {
            return Err(RigidBodyError::DuplicateMarker(id));
        }
        match checks[k] {
            TransformCheck::Valid => {},
            TransformCheck::NonFinite => {
                return Err(RigidBodyError::NonFiniteTransform(id));
            },
            TransformCheck::NotRotation => {
                return Err(RigidBodyError::ImproperRotation(id));
            },
        }
        k = k + 1;
    }
    Ok(())
}

/// Position of marker `id` in the body, if it is one of the body's markers.
pub open spec fn body_index(body: Seq<i32>, id: i32) -> Option<int> {
    if body.contains(id) {
        Some(choose|j: int| 0 <= j < body.len() && body[j] == id)
    } else {
        None
    }
}

/// The matches of detections `0..k` as (detection, body marker) pairs, or
/// the first error among them. Detections of markers the body does not know
/// are skipped; for a marker of the body, a repeated detection is an error,
/// then non-finite corners.
pub open spec fn plan_upto(body: Seq<i32>, detected: Seq<i32>, finite: Seq<bool>, k: int) -> Result<
    Seq<(usize, usize)>,
    RigidBodyError,
>
    decreases k,
{
    if k <= 0 {
        Ok(Seq::empty())
    } else {
        match plan_upto(body, detected, finite, k - 1) {
            Err(e) => Err(e),
            Ok(p) => match body_index(body, detected[k - 1]) {
                None => Ok(p),
                Some(j) => if repeats_earlier(detected, k - 1) {
                    Err(RigidBodyError::DuplicateDetection(detected[k - 1]))
                } else if !finite[k - 1] {
                    Err(RigidBodyError::NonFiniteCorners(detected[k - 1]))
                } else {
                    Ok(p.push(((k - 1) as usize, j as usize)))
                },
            },
        }
    }
}

/// An error among the first detections is the error of the whole frame.
proof fn lemma_plan_error_stays(body: Seq<i32>, detected: Seq<i32>, finite: Seq<bool>, k: int, m: int)
    requires
        0 <= k <= m,
        plan_upto(body, detected, finite, k) is Err,
    ensures
        plan_upto(body, detected, finite, m) == plan_upto(body, detected, finite, k),
    decreases m - k,
{
    if m > k {
        lemma_plan_error_stays(body, detected, finite, k, m - 1);
    }
}

/// Detection `i` is acceptable: any detection of a marker the body does not
/// know is; one of the body's markers must be new in the frame and have
/// finite corners.
pub open spec fn detection_ok(body: Seq<i32>, detected: Seq<i32>, finite: Seq<bool>, i: int) -> bool {
    body.contains(detected[i]) ==> !repeats_earlier(detected, i) && finite[i]
}

/// `p` pairs, in detection order, exactly the detections among the first `k`
/// that are markers of the body, each with its marker's position in the body.
pub open spec fn pairs_body_detections(body: Seq<i32>, detected: Seq<i32>, k: int, p: Seq<(usize, usize)>) -> bool {
    &&& forall|m: int|
        0 <= m < p.len() ==> (#[trigger] p[m]).0 < k && p[m].1 < body.len() && body[p[m].1 as int] == detected[p[m].0 as int]
    &&& forall|m1: int, m2: int| 0 <= m1 < m2 < p.len() ==> (#[trigger] p[m1]).0 < (#[trigger] p[m2]).0
    &&& forall|i: int|
        0 <= i < k && #[trigger] body.contains(detected[i]) ==> exists|m: int| 0 <= m < p.len() && p[m].0 == i
}

/// Matching succeeds exactly when every detection is acceptable, and then
/// pairs, in detection order, exactly the detections of the body's markers
/// with the positions of those markers in the body.
pub proof fn lemma_plan_matches(body: Seq<i32>, detected: Seq<i32>, finite: Seq<bool>, k: int)
    requires
        0 <= k <= detected.len(),
        k <= usize::MAX,
        body.len() <= usize::MAX,
    ensures
        (plan_upto(body, detected, finite, k) is Ok) == (forall|i: int| 0 <= i < k ==> #[trigger] detection_ok(body, detected, finite, i)),
        plan_upto(body, detected, finite, k) matches Ok(p) ==> pairs_body_detections(body, detected, k, p),
    decreases k,
{
    if k > 0 {
        lemma_plan_matches(body, detected, finite, k - 1);
        let i = k - 1;
        if plan_upto(body, detected, finite, k - 1) is Ok {
            if !detection_ok(body, detected, finite, i) {
                assert(plan_upto(body, detected, finite, k) is Err) by {
                    if !repeats_earlier(detected, i) && body.contains(detected[i]) {
                        let j = choose|j: int| 0 <= j < body.len() && body[j] == detected[i];
                    }
                }
            } else {
                let p = plan_upto(body, detected, finite, k - 1)->Ok_0;
                match body_index(body, detected[i]) {
                    None => {
                        assert(plan_upto(body, detected, finite, k) == Ok::<Seq<(usize, usize)>, RigidBodyError>(p));
                        assert forall|ii: int| 0 <= ii < k && #[trigger] body.contains(detected[ii]) implies exists|m: int|
                            0 <= m < p.len() && p[m].0 == ii by {
                            assert(ii != i);
                        }
                        assert forall|m: int| 0 <= m < p.len() implies (#[trigger] p[m]).0 < k by {}
                        assert(pairs_body_detections(body, detected, k, p));
                    },
                    Some(j) => {
                        let q = p.push((i as usize, j as usize));
                        assert(body.contains(detected[i]));
                        assert(0 <= j < body.len() && body[j] == detected[i]);
                        assert(plan_upto(body, detected, finite, k) == Ok::<Seq<(usize, usize)>, RigidBodyError>(q));
                        assert(q[p.len() as int] == (i as usize, j as usize));
                        assert forall|m: int| 0 <= m < q.len() implies (#[trigger] q[m]).0 < k && q[m].1 < body.len()
                            && body[q[m].1 as int] == detected[q[m].0 as int] by {
                            if m < p.len() {
                                assert(q[m] == p[m]);
                            }
                        }
                        assert forall|m1: int, m2: int| 0 <= m1 < m2 < q.len() implies (#[trigger] q[m1]).0 < (
                        #[trigger] q[m2]).0 by {
                            assert(q[m1] == p[m1]);
                            if m2 < p.len() {
                                assert(q[m2] == p[m2]);
                            }
                        }
                        assert forall|ii: int| 0 <= ii < k && #[trigger] body.contains(detected[ii]) implies exists|m: int|
                            0 <= m < q.len() && q[m].0 == ii by {
                            if ii < k - 1 {
                                let m = choose|m: int| 0 <= m < p.len() && p[m].0 == ii;
                                assert(q[m] == p[m]);
                            } else {
                                assert(q[p.len() as int].0 == ii);
                            }
                        }
                        assert(pairs_body_detections(body, detected, k, q));
                    },
                }
            }
        } else {
            assert(!detection_ok(body, detected, finite, choose|i: int| 0 <= i < k - 1 && !detection_ok(
                body,
                detected,
                finite,
                i,
            )));
        }
    }
}

/// Where `id` sits in the body, if anywhere.
fn find_in_body(body: &[i32], id: i32) -> (r: Option<usize>)
    requires
        body@.no_duplicates(),
    ensures
        match body_index(body@, id) {
            None => r is None,
            Some(j) => r == Some(j as usize),
        },
{
    let mut j: usize = 0;
    while j < body.len()
        invariant
            j <= body.len(),
            body@.no_duplicates(),
            forall|i: int| 0 <= i < j ==> body@[i] != id,
        decreases body.len() - j,
    {
        if body[j] == id {
            proof {
                assert(body@.contains(id));
                let c = choose|c: int| 0 <= c < body.len() && body@[c] == id;
                assert(body@[c] == body@[j as int]);
                assert(c == j);
            }
            return Some(j);
        }
        j = j + 1;
    }
    assert(!body@.contains(id));
    None
}

/// Matches one frame's detections (`detected` ids, `corner_count` corner
/// quadruples, `corners_finite` telling for each whether its coordinates
/// are finite) against the body's markers, in detection order: returns the
/// (detection, body marker) pairs to use, skipping markers not in the body
/// (repeated ones too); a marker of the body detected twice is an error.
pub fn assemble_plan(body_ids: &[i32], detected: &[i32], corner_count: usize, corners_finite: &[bool]) -> (res: Result<
    Vec<(usize, usize)>,
    RigidBodyError,
>)
    requires
        body_ids@.no_duplicates(),
        corner_count == detected.len() ==> corners_finite.len() == detected.len(),
    ensures
        corner_count != detected.len() ==> res == Err::<Vec<(usize, usize)>, RigidBodyError>(
            RigidBodyError::DetectionLengthMismatch,
        ),
        corner_count == detected.len() ==> match res {
            Ok(p) => plan_upto(body_ids@, detected@, corners_finite@, detected.len() as int) == Ok::<
                Seq<(usize, usize)>,
                RigidBodyError,
            >(p@),
            Err(e) => plan_upto(body_ids@, detected@, corners_finite@, detected.len() as int) == Err::<
                Seq<(usize, usize)>,
                RigidBodyError,
            >(e),
        },
{
    if corner_count != detected.len() {
        return Err(RigidBodyError::DetectionLengthMismatch);
    }
    let mut plan: Vec<(usize, usize)> = Vec::new();
    let mut k: usize = 0;
    while k < detected.len()
        invariant
            k <= detected.len(),
            corner_count == detected.len(),
            corners_finite.len() == detected.len(),
            body_ids@.no_duplicates(),
            plan_upto(body_ids@, detected@, corners_finite@, k as int) == Ok::<Seq<(usize, usize)>, RigidBodyError>(
                plan@,
            ),
        decreases detected.len() - k,
    {
        let id = detected[k];
        match find_in_body(body_ids, id) {
            None => {},
            Some(j) => {
                if occurs_before(detected, k) {
                    proof {
                        lemma_plan_error_stays(body_ids@, detected@, corners_finite@, k + 1, detected.len() as int);
                    }
                    return Err(RigidBodyError::DuplicateDetection(id));
                }
                if !corners_finite[k] {
                    proof {
                        lemma_plan_error_stays(body_ids@, detected@, corners_finite@, k + 1, detected.len() as int);
                    }
                    return Err(RigidBodyError::NonFiniteCorners(id));
                }
                plan.push((k, j));
            },
        }
        k = k + 1;
    }
    Ok(plan)
}

/// Number of inlier correspondences that belong to marker `id`.
pub open spec fn inlier_count(inliers: Seq<usize>, per_corner: Seq<i32>, id: i32, k: int) -> nat
    decreases k,
{
    if k <= 0 {
        0
    } else {
        inlier_count(inliers, per_corner, id, k - 1) + if inliers[k - 1] < per_corner.len()
            && per_corner[inliers[k - 1] as int] == id {
            1nat
        } else {
            0nat
        }
    }
}

/// The used markers, in order, backed by at least three inliers.
pub open spec fn supported_upto(inliers: Seq<usize>, per_corner: Seq<i32>, used: Seq<i32>, k: int) -> Seq<i32>
    decreases k,
{
    if k <= 0 {
        Seq::empty()
    } else if inlier_count(inliers, per_corner, used[k - 1], inliers.len() as int) >= 3 {
        supported_upto(inliers, per_corner, used, k - 1).push(used[k - 1])
    } else {
        supported_upto(inliers, per_corner, used, k - 1)
    }
}

/// Correspondence index `i` belongs to marker `id`.
pub open spec fn names_marker(per_corner: Seq<i32>, id: i32) -> spec_fn(usize) -> bool {
    |i: usize| i < per_corner.len() && per_corner[i as int] == id
}

/// Number of inlier indices that belong to marker `id`.
pub open spec fn inlier_total(inliers: Seq<usize>, per_corner: Seq<i32>, id: i32) -> nat {
    inliers.filter(names_marker(per_corner, id)).len()
}

/// The inliers of a marker are counted exactly: the inlier indices among the
/// first `k` that name a correspondence of that marker.
pub proof fn lemma_inlier_count_exact(inliers: Seq<usize>, per_corner: Seq<i32>, id: i32, k: int)
    requires
        0 <= k <= inliers.len(),
    ensures
        inlier_count(inliers, per_corner, id, k) == inliers.take(k).filter(names_marker(per_corner, id)).len(),
    decreases k,
{
    reveal(Seq::filter);
    if k > 0 {
        lemma_inlier_count_exact(inliers, per_corner, id, k - 1);
        assert(inliers.take(k).drop_last() =~= inliers.take(k - 1));
        assert(inliers.take(k).last() == inliers[k - 1]);
    } else {
        assert(inliers.take(0) =~= Seq::<usize>::empty());
    }
}

/// The inlier markers are the used markers, in order, that have at least
/// three inlier correspondences.
pub proof fn lemma_supported_upto_exact(inliers: Seq<usize>, per_corner: Seq<i32>, used: Seq<i32>, k: int)
    requires
        0 <= k <= used.len(),
    ensures
        supported_upto(inliers, per_corner, used, k) == used.take(k).filter(
            |id: i32| inlier_total(inliers, per_corner, id) >= 3,
        ),
    decreases k,
{
    reveal(Seq::filter);
    if k > 0 {
        lemma_supported_upto_exact(inliers, per_corner, used, k - 1);
        assert(used.take(k).drop_last() =~= used.take(k - 1));
        assert(used.take(k).last() == used[k - 1]);
        lemma_inlier_count_exact(inliers, per_corner, used[k - 1], inliers.len() as int);
        assert(inliers.take(inliers.len() as int) =~= inliers);
    } else {
        assert(used.take(0) =~= Seq::<i32>::empty());
    }
}

/// The used markers (in their order) of which at least three corners are
/// among the pose's inliers; `marker_ids_per_corner` names the marker of each
/// correspondence, and inlier indices beyond it are ignored.
pub fn inlier_marker_ids(inlier_indices: &[usize], marker_ids_per_corner: &[i32], used_marker_ids: &[i32]) -> (ids: Vec<
    i32,
>)
    ensures
        ids@ == supported_upto(inlier_indices@, marker_ids_per_corner@, used_marker_ids@, used_marker_ids.len() as int),
        ids@ == used_marker_ids@.filter(
            |id: i32| inlier_total(inlier_indices@, marker_ids_per_corner@, id) >= 3,
        ),
{
    proof {
        lemma_supported_upto_exact(
            inlier_indices@,
            marker_ids_per_corner@,
            used_marker_ids@,
            used_marker_ids.len() as int,
        );
        assert(used_marker_ids@.take(used_marker_ids.len() as int) =~= used_marker_ids@);
    }
    let mut out: Vec<i32> = Vec::new();
    let mut u: usize = 0;
    while u < used_marker_ids.len()
        invariant
            u <= used_marker_ids.len(),
            out@ == supported_upto(inlier_indices@, marker_ids_per_corner@, used_marker_ids@, u as int),
        decreases used_marker_ids.len() - u,
    {
        let id = used_marker_ids[u];
        let mut count: usize = 0;
        let mut k: usize = 0;
        while k < inlier_indices.len()
            invariant
                k <= inlier_indices.len(),
                count == inlier_count(inlier_indices@, marker_ids_per_corner@, id, k as int),
                count <= k,
            decreases inlier_indices.len() - k,
        {
            let i = inlier_indices[k];
            if i < marker_ids_per_corner.len() && marker_ids_per_corner[i] == id {
                count = count + 1;
            }
            k = k + 1;
        }
        if count >= 3 {
            out.push(id);
        }
        u = u + 1;
    }
    out
}

} // verus!
