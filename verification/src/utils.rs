//! Geometry helpers: coordinate text, ring closure, the closed-way
//! heuristic and the stitching of split ring fragments.

use vstd::prelude::*;
use crate::numbers::{dec_digits, digit_char, u64_to_string};
use crate::object::{OSMObject, OSMObjectV};

verus! {

/// A coordinate pair: longitude and latitude in fixed-point form,
/// degrees scaled by `10^7`.
pub type Coord = (i64, i64);

pub const COORD_SCALE: u64 = 10000000;

/// `k` decimal digits of `n`, least significant last, zero padded.
pub open spec fn padded_digits(n: nat, k: nat) -> Seq<char>
    decreases k,
{
    if k == 0 {
        Seq::empty()
    } else {
        padded_digits(n / 10, (k - 1) as nat) + seq![digit_char(n % 10)]
    }
}

/// Drop trailing `'0'` characters.
pub open spec fn trim_zeros(s: Seq<char>) -> Seq<char>
    decreases s.len(),
{
    if s.len() > 0 && s.last() == '0' {
        trim_zeros(s.drop_last())
    } else {
        s
    }
}

/// The text of one fixed-point coordinate value: the integer part in
/// decimal, then, when the fractional part is not zero, a point and the
/// fraction's digits with trailing zeroes removed.
pub open spec fn coord_text(v: int) -> Seq<char> {
    let a = (if v < 0 { -v } else { v }) as nat;
    let ip = a / (COORD_SCALE as nat);
    let fp = a % (COORD_SCALE as nat);
    let sign: Seq<char> = if v < 0 { seq!['-'] } else { Seq::empty() };
    if fp == 0 {
        sign + dec_digits(ip)
    } else {
        sign + dec_digits(ip) + seq!['.'] + trim_zeros(padded_digits(fp, 7))
    }
}

/// The text of one coordinate pair: longitude, a space, latitude.
pub open spec fn pair_text(c: (i64, i64)) -> Seq<char> {
    coord_text(c.0 as int) + seq![' '] + coord_text(c.1 as int)
}

/// The text of a coordinate sequence: pairs joined by a comma and a
/// space.
pub open spec fn coords_text(cs: Seq<(i64, i64)>) -> Seq<char>
    decreases cs.len(),
{
    if cs.len() == 0 {
        Seq::empty()
    } else if cs.len() == 1 {
        pair_text(cs[0])
    } else {
        pair_text(cs[0]) + seq![',', ' '] + coords_text(cs.drop_first())
    }
}

/// Render the fractional digits of `n`, `k` of them, zero padded.
fn padded_str(n: u64, k: u64) -> (r: Vec<char>)
    requires
        k <= 7,
    ensures
        r@ == padded_digits(n as nat, k as nat),
    decreases k,
{
    if k == 0 {
        let v: Vec<char> = Vec::new();
        proof {
            assert(v@ =~= padded_digits(n as nat, 0));
        }
        v
    } else {
        let mut v = padded_str(n / 10, k - 1);
        let d = n % 10;
        let c: char = match d {
            0 => '0',
            1 => '1',
            2 => '2',
            3 => '3',
            4 => '4',
            5 => '5',
            6 => '6',
            7 => '7',
            8 => '8',
            _ => '9',
        };
        assert(c == digit_char((n % 10) as nat));
        v.push(c);
        proof {
            assert(v@ =~= padded_digits(n as nat, k as nat));
        }
        v
    }
}

/// Render one fixed-point coordinate value as text.
pub fn coord_to_string(v: i64) -> (r: String)
    ensures
        r@ == coord_text(v as int),
{
    let a: u64 = if v < 0 {
        if v == i64::MIN {
            // The OSM coordinate range is far below this magnitude; the
            // value is still rendered faithfully.
            9223372036854775808u64
        } else {
            (-v) as u64
        }
    } else {
        v as u64
    };
    let ip = a / COORD_SCALE;
    let fp = a % COORD_SCALE;
    let mut s = String::new();
    if v < 0 {
        proof {
            reveal_strlit("-");
        }
        s.append("-");
    }
    s.append(u64_to_string(ip).as_str());
    if fp == 0 {
        proof {
            assert(s@ =~= coord_text(v as int));
        }
        s
    } else {
        proof {
            reveal_strlit(".");
        }
        s.append(".");
        let mut frac = padded_str(fp, 7);
        while frac.len() > 0 && frac[frac.len() - 1] == '0'
            invariant
                trim_zeros(frac@) == trim_zeros(padded_digits(fp as nat, 7)),
            decreases frac.len(),
        {
            let ghost pre = frac@;
            frac.pop();
            proof {
                assert(frac@ =~= pre.drop_last());
            }
        }
        proof {
            assert(trim_zeros(frac@) == frac@);
        }
        s.append(crate::strutil::chars_to_string(&frac).as_str());
        proof {
            assert(s@ =~= coord_text(v as int));
        }
        s
    }
}

/// Render a coordinate sequence as text: `lon lat, lon lat, ...`.
pub fn coords_to_text(coords: &Vec<Coord>) -> (r: String)
    ensures
        r@ == coords_text(coords@),
{
    let mut s = String::new();
    let mut i: usize = 0;
    proof {
        assert(coords@.skip(0) =~= coords@);
    }
    while i < coords.len()
        invariant
            0 <= i <= coords.len(),
            s@ + coords_text(coords@.skip(i as int)) == coords_text(coords@) || (i == coords.len()
                && s@ == coords_text(coords@)),
        decreases coords.len() - i,
    {
        proof {
            assert(coords@.skip(i as int)[0] == coords@[i as int]);
            assert(coords@.skip(i as int).drop_first() =~= coords@.skip(i + 1));
        }
        let (x, y) = (coords[i].0, coords[i].1);
        s.append(coord_to_string(x).as_str());
        proof {
            reveal_strlit(" ");
            reveal_strlit(", ");
        }
        s.append(" ");
        s.append(coord_to_string(y).as_str());
        if i + 1 < coords.len() {
            s.append(", ");
            proof {
                assert(", "@ =~= seq![',', ' ']);
            }
        }
        i += 1;
        proof {
            assert(" "@ =~= seq![' ']);
            if i < coords.len() {
                assert(s@ + coords_text(coords@.skip(i as int)) =~= coords_text(coords@));
            } else {
                assert(coords_text(coords@.skip(i as int)) =~= Seq::<char>::empty());
                assert(s@ =~= coords_text(coords@));
            }
        }
    }
    proof {
        if coords.len() == 0 {
            assert(s@ =~= coords_text(coords@));
        }
    }
    s
}

/// Whether a way's tags mark it as enclosing an area, so that its
/// geometry is rendered as a ring rather than a line.  The heuristic:
/// an `area=yes` tag, or any `building` tag.
pub open spec fn spec_should_have_closed_geometry(o: OSMObjectV) -> bool {
    o.tag("area"@) == Some("yes"@) || o.tag("building"@) is Some
}

pub fn object_should_have_closed_geometry(object: &OSMObject) -> (r: bool)
    ensures
        r == spec_should_have_closed_geometry(object@),
{
    match object.tag("area") {
        Some(v) => {
            if crate::strutil::str_eq(v.as_str(), "yes") {
                return true;
            }
        },
        None => {},
    }
    match object.tag("building") {
        Some(_) => true,
        None => false,
    }
}

/// Close a ring: when the first and last coordinates differ, append the
/// first again.
pub fn ensure_closed(coords: &mut Vec<Coord>)
    requires
        old(coords)@.len() > 0,
    ensures
        final(coords)@ == if old(coords)@.first() == old(coords)@.last() {
            old(coords)@
        } else {
            old(coords)@ + seq![old(coords)@.first()]
        },
{
    let first = coords[0];
    let last = coords[coords.len() - 1];
    if !(first.0 == last.0 && first.1 == last.1) {
        coords.push(first);
    }
}

/// The set of points over a collection of segments.
pub open spec fn segment_points(segs: Seq<Seq<Coord>>) -> Set<Coord>
    decreases segs.len(),
{
    if segs.len() == 0 {
        Set::empty()
    } else {
        segs[0].to_set() + segment_points(segs.drop_first())
    }
}

/// Two segments can be joined when an end of one coincides with an end
/// of the other (reversal allowed).  Empty segments join with nothing.
pub open spec fn joinable(a: Seq<Coord>, b: Seq<Coord>) -> bool {
    a.len() > 0 && b.len() > 0 && (a.last() == b.first() || a.last() == b.last() || a.first()
        == b.first() || a.first() == b.last())
}

/// No two distinct segments of the collection can be joined.
pub open spec fn fully_stitched(segs: Seq<Seq<Coord>>) -> bool {
    forall|i: int, j: int|
        0 <= i < segs.len() && 0 <= j < segs.len() && i != j ==> !joinable(
            #[trigger] segs[i],
            #[trigger] segs[j],
        )
}

/// The first joinable pair at or after scan position `(i, j)`, row by
/// row.
pub open spec fn find_pair_from(segs: Seq<Seq<Coord>>, i: int, j: int) -> Option<(int, int)>
    decreases segs.len() - i, segs.len() - j,
{
    if !(0 <= i && 0 <= j) {
        None
    } else if i >= segs.len() {
        None
    } else if j >= segs.len() {
        find_pair_from(segs, i + 1, 0)
    } else if i != j && joinable(segs[i], segs[j]) {
        Some((i, j))
    } else {
        find_pair_from(segs, i, j + 1)
    }
}

/// The first joinable pair of the collection, in scan order.
pub open spec fn first_joinable(segs: Seq<Seq<Coord>>) -> Option<(int, int)> {
    find_pair_from(segs, 0, 0)
}

proof fn lemma_find_pair_bounds(segs: Seq<Seq<Coord>>, i: int, j: int)
    requires
        find_pair_from(segs, i, j) is Some,
    ensures
        ({
            let p = find_pair_from(segs, i, j)->0;
            0 <= p.0 < segs.len() && 0 <= p.1 < segs.len() && p.0 != p.1 && joinable(
                segs[p.0],
                segs[p.1],
            )
        }),
    decreases segs.len() - i, segs.len() - j,
{
    if 0 <= i && 0 <= j && i < segs.len() {
        if j >= segs.len() {
            lemma_find_pair_bounds(segs, i + 1, 0);
        } else if i != j && joinable(segs[i], segs[j]) {
        } else {
            lemma_find_pair_bounds(segs, i, j + 1);
        }
    }
}

/// The stitch of a collection: repeatedly merge the first joinable pair
/// in scan order until none is left.  This is the exact function the
/// stitching loop computes.
pub open spec fn stitch_spec(segs: Seq<Seq<Coord>>) -> Seq<Seq<Coord>>
    decreases segs.len(),
{
    match first_joinable(segs) {
        None => segs,
        Some(p) => {
            if 0 <= p.0 < segs.len() && 0 <= p.1 < segs.len() && p.0 != p.1 {
                stitch_spec(segs.update(p.0, merged_segment(segs[p.0], segs[p.1])).remove(p.1))
            } else {
                segs
            }
        },
    }
}

proof fn lemma_stitch_spec_stitched(segs: Seq<Seq<Coord>>)
    ensures
        first_joinable(stitch_spec(segs)) is None,
    decreases segs.len(),
{
    match first_joinable(segs) {
        None => {},
        Some(p) => {
            lemma_find_pair_bounds(segs, 0, 0);
            lemma_stitch_spec_stitched(
                segs.update(p.0, merged_segment(segs[p.0], segs[p.1])).remove(p.1),
            );
        },
    }
}

/// Stitching is idempotent as a function: the stitch of a stitched
/// collection is that collection.
pub proof fn lemma_stitch_idempotent(segs: Seq<Seq<Coord>>)
    ensures
        stitch_spec(stitch_spec(segs)) == stitch_spec(segs),
{
    lemma_stitch_spec_stitched(segs);
}

/// The stitch of a collection holds exactly the points the collection
/// held.
pub proof fn lemma_stitch_spec_points(segs: Seq<Seq<Coord>>)
    ensures
        segment_points(stitch_spec(segs)) == segment_points(segs),
    decreases segs.len(),
{
    match first_joinable(segs) {
        None => {},
        Some(p) => {
            lemma_find_pair_bounds(segs, 0, 0);
            let merged = segs.update(p.0, merged_segment(segs[p.0], segs[p.1])).remove(p.1);
            lemma_stitch_step_points(segs, merged, p.0, p.1);
            lemma_stitch_spec_points(merged);
        },
    }
}


/// The views of a collection of coordinate vectors.
pub open spec fn views_of(segs: Seq<Vec<Coord>>) -> Seq<Seq<Coord>> {
    segs.map_values(|v: Vec<Coord>| v@)
}

/// `segment_points` holds exactly the points of the member segments.
pub proof fn lemma_segment_points_contains(segs: Seq<Seq<Coord>>, x: Coord)
    ensures
        segment_points(segs).contains(x) <==> exists|i: int|
            0 <= i < segs.len() && #[trigger] segs[i].contains(x),
    decreases segs.len(),
{
    if segs.len() > 0 {
        lemma_segment_points_contains(segs.drop_first(), x);
        if segs[0].contains(x) {
            assert(segment_points(segs).contains(x));
        }
        if segment_points(segs).contains(x) {
            if !segs[0].contains(x) {
                let i = choose|i: int|
                    0 <= i < segs.drop_first().len() && #[trigger] segs.drop_first()[i].contains(x);
                assert(segs[i + 1].contains(x));
            }
        }
        if exists|i: int| 0 <= i < segs.len() && #[trigger] segs[i].contains(x) {
            let i = choose|i: int| 0 <= i < segs.len() && #[trigger] segs[i].contains(x);
            if i > 0 {
                assert(segs.drop_first()[i - 1].contains(x));
            }
        }
    }
}

/// The merged form of two joinable segments: one is concatenated onto
/// the other, reversed when needed, and the shared endpoint appears only
/// once.
pub open spec fn merged_segment(a: Seq<Coord>, b: Seq<Coord>) -> Seq<Coord> {
    if a.last() == b.first() {
        a + b.drop_first()
    } else if a.last() == b.last() {
        a + b.reverse().drop_first()
    } else if a.first() == b.first() {
        a.reverse() + b.drop_first()
    } else {
        b + a.drop_first()
    }
}

proof fn lemma_concat_points(a: Seq<Coord>, b: Seq<Coord>, shared: Coord)
    requires
        b.len() > 0,
        b.first() == shared,
        a.contains(shared),
    ensures
        (a + b.drop_first()).to_set() =~= a.to_set() + b.to_set(),
{
    let m = a + b.drop_first();
    assert forall|x: Coord| m.to_set().contains(x) implies (a.to_set() + b.to_set()).contains(
        x,
    ) by {
        let i = choose|i: int| 0 <= i < m.len() && m[i] == x;
        if i < a.len() {
            assert(a.contains(x));
        } else {
            assert(b.drop_first()[i - a.len()] == x);
            assert(b[i - a.len() + 1] == x);
            assert(b.contains(x));
        }
    }
    assert forall|x: Coord| (a.to_set() + b.to_set()).contains(x) implies m.to_set().contains(
        x,
    ) by {
        if a.contains(x) {
            let i = choose|i: int| 0 <= i < a.len() && a[i] == x;
            assert(m[i] == x);
            assert(m.contains(x));
        } else {
            let i = choose|i: int| 0 <= i < b.len() && b[i] == x;
            if i == 0 {
                let j = choose|j: int| 0 <= j < a.len() && a[j] == shared;
                assert(m[j] == x);
                assert(m.contains(x));
            } else {
                assert(b.drop_first()[i - 1] == x);
                assert(m[a.len() + i - 1] == x);
                assert(m.contains(x));
            }
        }
    }
}

proof fn lemma_reverse_points(a: Seq<Coord>)
    ensures
        a.reverse().to_set() =~= a.to_set(),
        a.len() > 0 ==> a.reverse().first() == a.last() && a.reverse().last() == a.first(),
{
    assert forall|x: Coord| a.reverse().to_set().contains(x) implies a.to_set().contains(x) by {
        let i = choose|i: int| 0 <= i < a.reverse().len() && a.reverse()[i] == x;
        assert(a[a.len() - 1 - i] == x);
        assert(a.contains(x));
    }
    assert forall|x: Coord| a.to_set().contains(x) implies a.reverse().to_set().contains(x) by {
        let i = choose|i: int| 0 <= i < a.len() && a[i] == x;
        assert(a.reverse()[a.len() - 1 - i] == x);
        assert(a.reverse().contains(x));
    }
}

/// Joining two segments preserves their set of points.
proof fn lemma_merged_points(a: Seq<Coord>, b: Seq<Coord>)
    requires
        joinable(a, b),
    ensures
        merged_segment(a, b).to_set() =~= a.to_set() + b.to_set(),
        merged_segment(a, b).len() > 0,
{
    assert(a.contains(a.first()));
    assert(a.contains(a.last()));
    assert(b.contains(b.first()));
    assert(b.contains(b.last()));
    if a.last() == b.first() {
        lemma_concat_points(a, b, a.last());
        assert((a + b.drop_first()).to_set() + b.to_set() =~= a.to_set() + b.to_set());
    } else if a.last() == b.last() {
        lemma_reverse_points(b);
        lemma_concat_points(a, b.reverse(), a.last());
        assert(a.to_set() + b.reverse().to_set() =~= a.to_set() + b.to_set());
    } else if a.first() == b.first() {
        lemma_reverse_points(a);
        lemma_concat_points(a.reverse(), b, b.first());
        assert(a.reverse().to_set() + b.to_set() =~= a.to_set() + b.to_set());
    } else {
        lemma_concat_points(b, a, b.last());
        assert((b + a.drop_first()).to_set() =~= b.to_set() + a.to_set());
        assert(b.to_set() + a.to_set() =~= a.to_set() + b.to_set());
    }
}

/// A copy of the segment.
fn copy_seg(a: &Vec<Coord>) -> (r: Vec<Coord>)
    ensures
        r@ == a@,
{
    let mut r: Vec<Coord> = Vec::new();
    let mut i: usize = 0;
    while i < a.len()
        invariant
            0 <= i <= a.len(),
            r@ =~= a@.subrange(0, i as int),
        decreases a.len() - i,
    {
        r.push(a[i]);
        i += 1;
    }
    proof {
        assert(r@ =~= a@);
    }
    r
}

/// A copy of the segment, reversed.
fn reverse_seg(a: &Vec<Coord>) -> (r: Vec<Coord>)
    ensures
        r@ == a@.reverse(),
{
    let mut r: Vec<Coord> = Vec::new();
    let mut i: usize = a.len();
    while i > 0
        invariant
            0 <= i <= a.len(),
            r@.len() == a.len() - i,
            forall|k: int| 0 <= k < r@.len() ==> r@[k] == a@[a.len() - 1 - k],
        decreases i,
    {
        i -= 1;
        r.push(a[i]);
    }
    proof {
        assert(r@ =~= a@.reverse());
    }
    r
}

/// Append all but the first element of `b` onto `a`.
fn extend_tail(a: &mut Vec<Coord>, b: &Vec<Coord>)
    requires
        b@.len() > 0,
    ensures
        final(a)@ == old(a)@ + b@.drop_first(),
{
    let mut i: usize = 1;
    while i < b.len()
        invariant
            1 <= i <= b.len(),
            a@ == old(a)@ + b@.subrange(1, i as int),
        decreases b.len() - i,
    {
        a.push(b[i]);
        proof {
            assert(old(a)@ + b@.subrange(1, i as int) + seq![b@[i as int]] =~= old(a)@
                + b@.subrange(1, i + 1));
        }
        i += 1;
    }
    proof {
        assert(b@.subrange(1, b@.len() as int) =~= b@.drop_first());
        assert(a@ =~= old(a)@ + b@.drop_first());
    }
}

/// Join two segments that share an endpoint.
fn merge_segments(a: &Vec<Coord>, b: &Vec<Coord>) -> (r: Vec<Coord>)
    requires
        joinable(a@, b@),
    ensures
        r@ == merged_segment(a@, b@),
{
    let a_first = a[0];
    let a_last = a[a.len() - 1];
    let b_first = b[0];
    let b_last = b[b.len() - 1];
    if a_last.0 == b_first.0 && a_last.1 == b_first.1 {
        let mut r = copy_seg(a);
        extend_tail(&mut r, b);
        r
    } else if a_last.0 == b_last.0 && a_last.1 == b_last.1 {
        let mut r = copy_seg(a);
        let rb = reverse_seg(b);
        extend_tail(&mut r, &rb);
        r
    } else if a_first.0 == b_first.0 && a_first.1 == b_first.1 {
        let mut r = reverse_seg(a);
        extend_tail(&mut r, b);
        r
    } else {
        let mut r = copy_seg(b);
        extend_tail(&mut r, a);
        r
    }
}

/// Find the first joinable pair in scan order, or report that none
/// exists.
fn find_joinable_pair(segs: &Vec<Vec<Coord>>) -> (r: Option<(usize, usize)>)
    ensures
        match r {
            Some(p) => p.0 < segs@.len() && p.1 < segs@.len() && p.0 != p.1 && joinable(
                segs@[p.0 as int]@,
                segs@[p.1 as int]@,
            ) && first_joinable(views_of(segs@)) == Some((p.0 as int, p.1 as int)),
            None => fully_stitched(views_of(segs@)) && first_joinable(views_of(segs@)) is None,
        },
{
    let ghost vs = views_of(segs@);
    let n = segs.len();
    let mut i: usize = 0;
    while i < n
        invariant
            0 <= i <= n,
            n == segs@.len(),
            vs == views_of(segs@),
            vs.len() == n,
            first_joinable(vs) == find_pair_from(vs, i as int, 0),
            forall|i2: int, j2: int|
                0 <= i2 < i && 0 <= j2 < n && i2 != j2 ==> !joinable(
                    #[trigger] segs@[i2]@,
                    #[trigger] segs@[j2]@,
                ),
        decreases n - i,
    {
        let mut j: usize = 0;
        while j < n
            invariant
                0 <= i < n,
                0 <= j <= n,
                n == segs@.len(),
                vs == views_of(segs@),
                vs.len() == n,
                first_joinable(vs) == find_pair_from(vs, i as int, j as int),
                forall|j2: int|
                    0 <= j2 < j && i != j2 ==> !joinable(segs@[i as int]@, #[trigger] segs@[j2]@),
            decreases n - j,
        {
            if j != i {
                let a = &segs[i];
                let b = &segs[j];
                let mut hit = false;
                if a.len() > 0 && b.len() > 0 {
                    let af = a[0];
                    let al = a[a.len() - 1];
                    let bf = b[0];
                    let bl = b[b.len() - 1];
                    hit = (al.0 == bf.0 && al.1 == bf.1) || (al.0 == bl.0 && al.1 == bl.1) || (
                    af.0 == bf.0 && af.1 == bf.1) || (af.0 == bl.0 && af.1 == bl.1);
                }
                proof {
                    assert(hit == joinable(vs[i as int], vs[j as int]));
                }
                if hit {
                    proof {
                        assert(find_pair_from(vs, i as int, j as int) == Some((i as int, j as int)));
                    }
                    return Some((i, j));
                }
            }
            j += 1;
            proof {
                assert(first_joinable(vs) == find_pair_from(vs, i as int, j as int));
            }
        }
        i += 1;
        proof {
            assert(first_joinable(vs) == find_pair_from(vs, i as int, 0));
        }
    }
    proof {
        assert(find_pair_from(vs, i as int, 0) is None);
        assert(forall|i2: int, j2: int|
            0 <= i2 < views_of(segs@).len() && 0 <= j2 < views_of(segs@).len() && i2 != j2
                ==> !joinable(#[trigger] views_of(segs@)[i2], #[trigger] views_of(segs@)[j2]));
    }
    None
}

/// Stitch ring fragments: repeatedly join the first two segments (in
/// scan order) that share an endpoint, until no further join is
/// possible — exactly the function `stitch_spec` denotes.
///
/// Stitching is idempotent: a collection in which no two segments can be
/// joined is returned unchanged, so a second application returns its
/// input (`lemma_stitch_idempotent` states this of `stitch_spec`
/// itself).  The set of points over all segments never changes.
pub fn connect_polygon_segments(segments: &mut Vec<Vec<Coord>>)
    ensures
        views_of(final(segments)@) == stitch_spec(views_of(old(segments)@)),
        fully_stitched(views_of(final(segments)@)),
        fully_stitched(views_of(old(segments)@)) ==> final(segments)@ == old(segments)@,
        segment_points(views_of(final(segments)@)) == segment_points(views_of(old(segments)@)),
{
    loop
        invariant_except_break
            segments@.len() <= old(segments)@.len(),
            stitch_spec(views_of(segments@)) == stitch_spec(views_of(old(segments)@)),
            segment_points(views_of(segments@)) =~= segment_points(views_of(old(segments)@)),
            fully_stitched(views_of(old(segments)@)) ==> segments@ == old(segments)@,
        ensures
            views_of(segments@) == stitch_spec(views_of(old(segments)@)),
            fully_stitched(views_of(segments@)),
            segments@.len() <= old(segments)@.len(),
            segment_points(views_of(segments@)) =~= segment_points(views_of(old(segments)@)),
            fully_stitched(views_of(old(segments)@)) ==> segments@ == old(segments)@,
        decreases segments@.len(),
    {
        match find_joinable_pair(segments) {
            None => {
                proof {
                    assert(stitch_spec(views_of(segments@)) == views_of(segments@));
                }
                break;
            },
            Some((i, j)) => {
                let ghost before = views_of(segments@);
                let merged = merge_segments(&segments[i], &segments[j]);
                proof {
                    lemma_merged_points(before[i as int], before[j as int]);
                }
                segments.set(i, merged);
                segments.remove(j);
                proof {
                    assert(views_of(segments@) =~= before.update(
                        i as int,
                        merged_segment(before[i as int], before[j as int]),
                    ).remove(j as int));
                    assert(stitch_spec(before) == stitch_spec(views_of(segments@)));
                    lemma_stitch_step_points(
                        before,
                        views_of(segments@),
                        i as int,
                        j as int,
                    );
                }
            },
        }
    }
}

/// Replacing segment `i` by its merge with segment `j` and removing `j`
/// keeps the set of points.
proof fn lemma_stitch_step_points(before: Seq<Seq<Coord>>, after: Seq<Seq<Coord>>, i: int, j: int)
    requires
        0 <= i < before.len(),
        0 <= j < before.len(),
        i != j,
        joinable(before[i], before[j]),
        after == before.update(i, merged_segment(before[i], before[j])).remove(j),
    ensures
        segment_points(after) =~= segment_points(before),
{
    let upd = before.update(i, merged_segment(before[i], before[j]));
    lemma_merged_points(before[i], before[j]);
    assert forall|x: Coord| segment_points(after).contains(x) implies segment_points(
        before,
    ).contains(x) by {
        lemma_segment_points_contains(after, x);
        lemma_segment_points_contains(before, x);
        let k = choose|k: int| 0 <= k < after.len() && #[trigger] after[k].contains(x);
        let k0 = if k < j { k } else { k + 1 };
        assert(after[k] == upd[k0]);
        if k0 == i {
            assert(upd[i].to_set().contains(x));
            if before[i].contains(x) {
            } else {
                assert(before[j].to_set().contains(x));
            }
        } else {
            assert(before[k0].contains(x));
        }
    }
    assert forall|x: Coord| segment_points(before).contains(x) implies segment_points(
        after,
    ).contains(x) by {
        lemma_segment_points_contains(after, x);
        lemma_segment_points_contains(before, x);
        let k = choose|k: int| 0 <= k < before.len() && #[trigger] before[k].contains(x);
        if k == i || k == j {
            assert(upd[i].to_set().contains(x));
            let t = if i < j { i } else { i - 1 };
            assert(after[t] == upd[i]);
            assert(after[t].contains(x));
        } else {
            let t = if k < j { k } else { k - 1 };
            assert(after[t] == upd[k]);
            assert(after[t].contains(x));
        }
    }
}

} // verus!
