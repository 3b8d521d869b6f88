//! The wall model: the segments that block sight, taken from the map's
//! sight lines, its closed portals and, optionally, its objects' outlines.
use vstd::prelude::*;

verus! {

/// The segments between consecutive points of one polyline.
pub open spec fn chain<T>(points: Seq<T>) -> Seq<(T, T)> {
    Seq::new((if points.len() == 0 { 0 } else { points.len() - 1 }) as nat, |i: int| (points[i], points[i + 1]))
}

/// The segments of every polyline, polyline by polyline.
pub open spec fn chains<T>(lines: Seq<Vec<T>>) -> Seq<(T, T)>
    decreases lines.len(),
{
    if lines.len() == 0 {
        Seq::empty()
    } else {
        chains(lines.drop_last()) + chain(lines.last()@)
    }
}

/// The segment across each closed portal, from its first bound to its
/// second, portal by portal.
pub open spec fn portal_segments<T>(portals: Seq<(bool, Vec<T>)>) -> Seq<(T, T)>
    decreases portals.len(),
{
    if portals.len() == 0 {
        Seq::empty()
    } else {
        let p = portals.last();
        portal_segments(portals.drop_last()) + if p.0 {
            seq![(p.1@[0], p.1@[1])]
        } else {
            Seq::empty()
        }
    }
}

/// Every closed portal has two bounds.
pub open spec fn portals_bounded<T>(portals: Seq<(bool, Vec<T>)>) -> bool {
    forall|i: int| 0 <= i < portals.len() && (#[trigger] portals[i]).0 ==> portals[i].1@.len() >= 2
}

/// The segments that block sight: those of every sight line, then one
/// across each closed portal (`(closed, bounds)`), then, when `objects` is
/// given, those of every object outline.
pub fn wall_segments<T: Copy>(
    line_of_sight: &Vec<Vec<T>>,
    portals: &Vec<(bool, Vec<T>)>,
    objects: Option<&Vec<Vec<T>>>,
) -> (r: Vec<(T, T)>)
    requires
        portals_bounded(portals@),
    ensures
        r@ == chains(line_of_sight@) + portal_segments(portals@) + match objects {
            Some(o) => chains(o@),
            None => Seq::empty(),
        },
{
    let mut all_lines: Vec<(T, T)> = Vec::new();
    append_chains(line_of_sight, &mut all_lines);
    let mut i: usize = 0;
    while i < portals.len()
        invariant
            0 <= i <= portals@.len(),
            portals_bounded(portals@),
            all_lines@ == chains(line_of_sight@) + portal_segments(portals@.subrange(0, i as int)),
        decreases portals@.len() - i,
    {
        proof {
            assert(portals@.subrange(0, i + 1).drop_last() =~= portals@.subrange(0, i as int));
        }
        let portal = &portals[i];
        if portal.0 {
            proof {
                assert(portals@[i as int].0);
            }
            all_lines.push((portal.1[0], portal.1[1]));
        }
        proof {
            assert(all_lines@ =~= chains(line_of_sight@) + portal_segments(portals@.subrange(0, i + 1)));
        }
        i = i + 1;
    }
    proof {
        assert(portals@.subrange(0, i as int) =~= portals@);
    }
    if let Some(o) = objects {
        append_chains(o, &mut all_lines);
        proof {
            assert(all_lines@ =~= chains(line_of_sight@) + portal_segments(portals@) + chains(o@));
        }
    }
    all_lines
}

/// Appends the segments of every polyline to `out`.
fn append_chains<T: Copy>(lines: &Vec<Vec<T>>, out: &mut Vec<(T, T)>)
    ensures
        final(out)@ == old(out)@ + chains(lines@),
{
    let mut i: usize = 0;
    while i < lines.len()
        invariant
            0 <= i <= lines@.len(),
            out@ == old(out)@ + chains(lines@.subrange(0, i as int)),
        decreases lines@.len() - i,
    {
        proof {
            assert(lines@.subrange(0, i + 1).drop_last() =~= lines@.subrange(0, i as int));
        }
        let line = &lines[i];
        let ghost start = out@;
        if line.len() > 0 {
            let mut j: usize = 1;
            while j < line.len()
                invariant
                    1 <= j <= line@.len(),
                    out@ == start + chain(line@).subrange(0, j - 1),
                decreases line@.len() - j,
            {
                out.push((line[j - 1], line[j]));
                proof {
                    assert(out@ =~= start + chain(line@).subrange(0, j as int));
                }
                j = j + 1;
            }
            proof {
                assert(chain(line@).subrange(0, j - 1) =~= chain(line@));
            }
        } else {
            proof {
                assert(chain(line@) =~= Seq::<(T, T)>::empty());
                assert(out@ =~= start + chain(line@));
            }
        }
        proof {
            assert(out@ =~= old(out)@ + chains(lines@.subrange(0, i + 1)));
        }
        i = i + 1;
    }
    proof {
        assert(lines@.subrange(0, i as int) =~= lines@);
    }
}

} // verus!
