//! The bounding box of a run of glyphs.
use vstd::prelude::*;

verus! {

/// A glyph's pixel bounds: whole pixel coordinates, `min` inclusive and
/// `max` exclusive.
#[derive(Clone, Copy, Debug, PartialEq, Eq, Structural)]
pub struct PxRect {
    pub min_x: i32,
    pub min_y: i32,
    pub max_x: i32,
    pub max_y: i32,
}

impl PxRect {
    /// The minimum lies at or before the maximum on both axes.
    pub open spec fn ordered(self) -> bool {
        self.min_x <= self.max_x && self.min_y <= self.max_y
    }

    /// `other` lies within `self`.
    pub open spec fn contains(self, other: PxRect) -> bool {
        self.min_x <= other.min_x && self.min_y <= other.min_y && other.max_x <= self.max_x
            && other.max_y <= self.max_y
    }

    /// The smallest rectangle holding both.
    pub open spec fn hull(self, other: PxRect) -> PxRect {
        PxRect {
            min_x: if self.min_x <= other.min_x { self.min_x } else { other.min_x },
            min_y: if self.min_y <= other.min_y { self.min_y } else { other.min_y },
            max_x: if self.max_x >= other.max_x { self.max_x } else { other.max_x },
            max_y: if self.max_y >= other.max_y { self.max_y } else { other.max_y },
        }
    }
}

/// The bounding box of the glyphs that have an outline (`Some`), in order;
/// `None` where no glyph has one.
pub open spec fn bounds_of(glyphs: Seq<Option<PxRect>>) -> Option<PxRect>
    decreases glyphs.len(),
{
    if glyphs.len() == 0 {
        None
    } else {
        let prev = bounds_of(glyphs.drop_last());
        match glyphs.last() {
            None => prev,
            Some(g) => match prev {
                None => Some(g),
                Some(b) => Some(b.hull(g)),
            },
        }
    }
}

/// Grows the running bounding box by the pixel bounds of each glyph that has
/// an outline; glyphs without one add nothing.
pub fn text_bounds(glyphs: &Vec<Option<PxRect>>) -> (r: Option<PxRect>)
    ensures
        r == bounds_of(glyphs@),
{
    let mut acc: Option<PxRect> = None;
    let mut i: usize = 0;
    while i < glyphs.len()
        invariant
            i <= glyphs@.len(),
            acc == bounds_of(glyphs@.subrange(0, i as int)),
        decreases glyphs.len() - i,
    {
        assert(glyphs@.subrange(0, i + 1).drop_last() =~= glyphs@.subrange(0, i as int));
        match glyphs[i] {
            None => {},
            Some(g) => {
                acc = match acc {
                    None => Some(g),
                    Some(b) => Some(
                        PxRect {
                            min_x: if b.min_x <= g.min_x { b.min_x } else { g.min_x },
                            min_y: if b.min_y <= g.min_y { b.min_y } else { g.min_y },
                            max_x: if b.max_x >= g.max_x { b.max_x } else { g.max_x },
                            max_y: if b.max_y >= g.max_y { b.max_y } else { g.max_y },
                        },
                    ),
                };
            },
        }
        i = i + 1;
    }
    assert(glyphs@.subrange(0, i as int) =~= glyphs@);
    acc
}

/// The bounding box of a run holds the pixel bounds of every glyph in it
/// that has an outline.
pub proof fn lemma_bounds_contain(glyphs: Seq<Option<PxRect>>, i: int)
    requires
        0 <= i < glyphs.len(),
        glyphs[i] is Some,
    ensures
        bounds_of(glyphs) is Some,
        bounds_of(glyphs)->Some_0.contains(glyphs[i]->Some_0),
    decreases glyphs.len(),
{
    let prev = glyphs.drop_last();
    if i < glyphs.len() - 1 {
        assert(prev[i] == glyphs[i]);
        lemma_bounds_contain(prev, i);
    }
}

/// A run has a bounding box exactly when one of its glyphs has an outline.
pub proof fn lemma_bounds_some_iff(glyphs: Seq<Option<PxRect>>)
    ensures
        bounds_of(glyphs) is Some <==> exists|i: int| 0 <= i < glyphs.len() && #[trigger] glyphs[i] is Some,
    decreases glyphs.len(),
{
    if glyphs.len() > 0 {
        let prev = glyphs.drop_last();
        lemma_bounds_some_iff(prev);
        if bounds_of(prev) is Some {
            let i = choose|i: int| 0 <= i < prev.len() && #[trigger] prev[i] is Some;
            assert(glyphs[i] is Some);
        }
        if exists|i: int| 0 <= i < glyphs.len() && #[trigger] glyphs[i] is Some {
            let i = choose|i: int| 0 <= i < glyphs.len() && #[trigger] glyphs[i] is Some;
            if i < glyphs.len() - 1 {
                assert(prev[i] is Some);
            }
        }
    }
}

/// Where every glyph's pixel bounds are ordered, so is the bounding box.
pub proof fn lemma_bounds_ordered(glyphs: Seq<Option<PxRect>>)
    requires
        forall|i: int| 0 <= i < glyphs.len() && #[trigger] glyphs[i] is Some ==> glyphs[i]->Some_0.ordered(),
    ensures
        bounds_of(glyphs) is Some ==> bounds_of(glyphs)->Some_0.ordered(),
    decreases glyphs.len(),
{
    if glyphs.len() > 0 {
        let prev = glyphs.drop_last();
        assert forall|i: int| 0 <= i < prev.len() && #[trigger] prev[i] is Some implies prev[i]->Some_0.ordered() by {
            assert(prev[i] == glyphs[i]);
        }
        lemma_bounds_ordered(prev);
        assert(glyphs[glyphs.len() - 1] == glyphs.last());
    }
}

} // verus!
