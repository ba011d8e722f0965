//! Shadow-atlas planning: a first-fit row allocator that packs spot-light
//! tiles and the six faces of point-light cubemaps into one persistent 2D
//! atlas.

use vstd::prelude::*;

verus! {

/// Number of cascades used by the sun shadow map.
pub const CSM_CASCADE_COUNT: usize = 4;

/// Rectangle inside a shadow atlas.
#[derive(Copy, Clone, Debug, PartialEq, Eq, Structural)]
pub struct AtlasRect {
    /// Left coordinate in pixels.
    pub x: u32,
    /// Top coordinate in pixels.
    pub y: u32,
    /// Width in pixels.
    pub width: u32,
    /// Height in pixels.
    pub height: u32,
}

/// One atlas allocation, holding one spot rect or six point-light faces.
#[derive(Clone, Debug, PartialEq, Eq)]
pub struct ShadowAtlasAllocation {
    /// Rectangles assigned to the light.
    pub rects: Vec<AtlasRect>,
}

/// The rectangle lies inside a `width` x `height` atlas.
pub open spec fn rect_inside(r: AtlasRect, width: u32, height: u32) -> bool {
    r.x + r.width <= width && r.y + r.height <= height
}

/// The two rectangles share no pixel.
pub open spec fn rects_disjoint(a: AtlasRect, b: AtlasRect) -> bool {
    ||| a.x + a.width <= b.x
    ||| b.x + b.width <= a.x
    ||| a.y + a.height <= b.y
    ||| b.y + b.height <= a.y
}

/// No two rectangles of the sequence share a pixel.
pub open spec fn pairwise_disjoint(s: Seq<AtlasRect>) -> bool {
    forall|i: int, j: int|
        0 <= i < s.len() && 0 <= j < s.len() && i != j ==> rects_disjoint(
            #[trigger] s[i],
            #[trigger] s[j],
        )
}

/// Abstract allocator state: atlas size, row cursor and current row
/// height.
pub ghost struct AtlasState {
    pub width: u32,
    pub height: u32,
    pub cursor_x: u32,
    pub cursor_y: u32,
    pub row_height: u32,
}

impl AtlasState {
    /// The cursor stays inside the atlas and the open row fits below the
    /// bottom edge.
    pub open spec fn wf(self) -> bool {
        &&& self.cursor_x <= self.width
        &&& self.cursor_y + self.row_height <= self.height
    }

    /// The rectangle lies in the area already handed out: above the open
    /// row, or inside the open row left of the cursor.
    pub open spec fn covers(self, r: AtlasRect) -> bool {
        ||| r.y + r.height <= self.cursor_y
        ||| (r.y + r.height <= self.cursor_y + self.row_height && r.x + r.width
            <= self.cursor_x)
    }

    /// One first-fit allocation of a `width` x `height` rectangle. A
    /// request that does not fit the open row first moves the cursor to a
    /// new row (that move is kept even when the rectangle then does not fit
    /// vertically).
    pub open spec fn rect_step(self, width: u32, height: u32) -> (AtlasState, Option<AtlasRect>) {
        if width == 0 || height == 0 || width > self.width || height > self.height {
            (self, None)
        } else {
            let s = if self.cursor_x + width > self.width {
                AtlasState {
                    cursor_x: 0,
                    cursor_y: if self.cursor_y + self.row_height > u32::MAX {
                        u32::MAX
                    } else {
                        (self.cursor_y + self.row_height) as u32
                    },
                    row_height: 0,
                    ..self
                }
            } else {
                self
            };
            if s.cursor_y + height > s.height {
                (s, None)
            } else {
                (
                    AtlasState {
                        cursor_x: (s.cursor_x + width) as u32,
                        row_height: if s.row_height >= height {
                            s.row_height
                        } else {
                            height
                        },
                        ..s
                    },
                    Some(AtlasRect { x: s.cursor_x, y: s.cursor_y, width, height }),
                )
            }
        }
    }

    /// `n` square allocations of edge `size` in a row of requests; `None`
    /// as soon as one of them fails.
    pub open spec fn square_steps(self, size: u32, n: nat) -> Option<(AtlasState, Seq<AtlasRect>)>
        decreases n,
    {
        if n == 0 {
            Some((self, Seq::empty()))
        } else {
            match self.square_steps(size, (n - 1) as nat) {
                None => None,
                Some((s, rects)) => {
                    let (s2, r) = s.rect_step(size, size);
                    match r {
                        None => None,
                        Some(rect) => Some((s2, rects.push(rect))),
                    }
                },
            }
        }
    }
}

/// One allocation keeps the state well formed, and a granted rectangle
/// lies inside the atlas, shares no pixel with anything the state already
/// covers, and is covered by the new state, which covers everything the
/// old one did.
pub proof fn law_rect_step_sound(s: AtlasState, width: u32, height: u32, old_rect: AtlasRect)
    requires
        s.wf(),
    ensures
        ({
            let (s2, r) = s.rect_step(width, height);
            &&& s2.wf()
            &&& s2.width == s.width && s2.height == s.height
            &&& s.covers(old_rect) ==> s2.covers(old_rect)
            &&& r matches Some(rect) ==> {
                &&& rect_inside(rect, s.width, s.height)
                &&& rect.width == width && rect.height == height
                &&& s2.covers(rect)
                &&& (s.covers(old_rect) ==> rects_disjoint(rect, old_rect))
            }
        }),
{
}

/// First fit by rows. A request of a zero or oversized rectangle is
/// refused and changes nothing. A rectangle that fits the open row right
/// of the cursor goes there; one that does not is placed at the left edge
/// directly below the open row (at `cursor_y + row_height`, with no gap),
/// and it is refused only when it does not fit there either.
pub proof fn law_rect_step_first_fit(s: AtlasState, width: u32, height: u32)
    requires
        s.wf(),
    ensures
        ({
            let (s2, r) = s.rect_step(width, height);
            &&& (width == 0 || height == 0 || width > s.width || height > s.height) ==> r is None && s2 == s
            &&& (0 < width <= s.width && 0 < height <= s.height && s.cursor_x + width <= s.width) ==> (if s.cursor_y
                + height <= s.height {
                r == Some(AtlasRect { x: s.cursor_x, y: s.cursor_y, width, height })
            } else {
                r is None
            })
            &&& (0 < width <= s.width && 0 < height <= s.height && s.cursor_x + width > s.width) ==> (if s.cursor_y
                + s.row_height + height <= s.height {
                r == Some(AtlasRect { x: 0, y: (s.cursor_y + s.row_height) as u32, width, height })
            } else {
                r is None
            })
        }),
{
}

/// First-fit row allocator for a persistent 2D shadow atlas. Its
/// allocation functions accept every size: cursor arithmetic never
/// overflows (the row move saturates and fit tests compare by
/// subtraction), and every step keeps the state well formed
/// ([`law_rect_step_sound`]).
#[derive(Clone)]
pub struct ShadowAtlasAllocator {
    width: u32,
    height: u32,
    cursor_x: u32,
    cursor_y: u32,
    row_height: u32,
    granted: Ghost<Seq<AtlasRect>>,
}

impl View for ShadowAtlasAllocator {
    type V = AtlasState;

    closed spec fn view(&self) -> AtlasState {
        AtlasState {
            width: self.width,
            height: self.height,
            cursor_x: self.cursor_x,
            cursor_y: self.cursor_y,
            row_height: self.row_height,
        }
    }
}

impl ShadowAtlasAllocator {
    /// Every rectangle handed out so far, in order.
    pub closed spec fn history(&self) -> Seq<AtlasRect> {
        self.granted@
    }

    /// The state is well formed and the history is covered by it, inside
    /// the atlas and free of overlaps.
    pub open spec fn wf(&self) -> bool {
        &&& self@.wf()
        &&& pairwise_disjoint(self.history())
        &&& forall|i: int|
            0 <= i < self.history().len() ==> #[trigger] rect_inside(
                self.history()[i],
                self@.width,
                self@.height,
            ) && self@.covers(self.history()[i])
    }

    /// Creates an empty atlas allocator.
    pub fn new(width: u32, height: u32) -> (r: Self)
        ensures
            r@ == (AtlasState { width, height, cursor_x: 0, cursor_y: 0, row_height: 0 }),
            r.history() == Seq::<AtlasRect>::empty(),
            r.wf(),
    {
        ShadowAtlasAllocator {
            width,
            height,
            cursor_x: 0,
            cursor_y: 0,
            row_height: 0,
            granted: Ghost(Seq::empty()),
        }
    }

    /// Allocates one `width` x `height` rectangle (first fit in the open
    /// row, else at the start of a new row).
    fn allocate_rect(&mut self, width: u32, height: u32) -> (r: Option<AtlasRect>)
        requires
            old(self).wf(),
        ensures
            (final(self)@, r) == old(self)@.rect_step(width, height),
            final(self).wf(),
            r is None ==> final(self).history() == old(self).history(),
            r matches Some(rect) ==> final(self).history() == old(self).history().push(rect),
    {
        proof {
            assert forall|i: int| 0 <= i < self.history().len() implies
                self@.rect_step(width, height).0.covers(#[trigger] self.history()[i])
                && (self@.rect_step(width, height).1 is Some ==> rects_disjoint(
                    self@.rect_step(width, height).1->0,
                    self.history()[i],
                )) by {
                assert(rect_inside(self.history()[i], self@.width, self@.height));
                law_rect_step_sound(self@, width, height, self.history()[i]);
            }
            law_rect_step_sound(self@, width, height, AtlasRect { x: 0, y: 0, width: 0, height: 0 });
        }
        let ghost old_hist = self.history();
        if width == 0 || height == 0 || width > self.width || height > self.height {
            return None;
        }
        if width > self.width - self.cursor_x {
            self.cursor_x = 0;
            self.cursor_y = self.cursor_y.saturating_add(self.row_height);
            self.row_height = 0;
        }
        if height > self.height - self.cursor_y {
            return None;
        }
        let rect = AtlasRect { x: self.cursor_x, y: self.cursor_y, width, height };
        self.cursor_x = self.cursor_x + width;
        if self.row_height < height {
            self.row_height = height;
        }
        self.granted = Ghost(old_hist.push(rect));
        proof {
            let h = self.history();
            assert forall|i: int, j: int|
                0 <= i < h.len() && 0 <= j < h.len() && i != j implies rects_disjoint(
                #[trigger] h[i],
                #[trigger] h[j],
            ) by {
                if i == h.len() - 1 {
                    assert(h[j] == old_hist[j]);
                } else if j == h.len() - 1 {
                    assert(h[i] == old_hist[i]);
                } else {
                    assert(h[i] == old_hist[i]);
                    assert(h[j] == old_hist[j]);
                }
            }
            assert forall|i: int| 0 <= i < h.len() implies #[trigger] rect_inside(
                h[i],
                self@.width,
                self@.height,
            ) && self@.covers(h[i]) by {
                if i < old_hist.len() {
                    assert(h[i] == old_hist[i]);
                }
            }
        }
        Some(rect)
    }

    /// Allocates one square shadow tile of edge `size`.
    pub fn allocate_spot(&mut self, size: u32) -> (r: Option<AtlasRect>)
        requires
            old(self).wf(),
        ensures
            (final(self)@, r) == old(self)@.rect_step(size, size),
            final(self).wf(),
            r is None ==> final(self).history() == old(self).history(),
            r matches Some(rect) ==> final(self).history() == old(self).history().push(rect),
    {
        self.allocate_rect(size, size)
    }

    /// Allocates the six faces of a point-light cubemap, each a square of
    /// edge `face_size`. When any face does not fit, the allocator goes
    /// back to the state it had before the call and `None` is returned.
    pub fn allocate_point_light(&mut self, face_size: u32) -> (r: Option<ShadowAtlasAllocation>)
        requires
            old(self).wf(),
        ensures
            final(self).wf(),
            match old(self)@.square_steps(face_size, 6) {
                Some((s, rects)) => {
                    &&& r matches Some(a) && a.rects@ == rects
                    &&& final(self)@ == s
                    &&& final(self).history() == old(self).history() + rects
                },
                None => {
                    &&& r is None
                    &&& final(self)@ == old(self)@
                    &&& final(self).history() == old(self).history()
                },
            },
    {
        let checkpoint_x = self.cursor_x;
        let checkpoint_y = self.cursor_y;
        let checkpoint_row = self.row_height;
        let ghost start = self@;
        let ghost start_hist = self.history();
        let mut rects: Vec<AtlasRect> = Vec::with_capacity(6);
        let mut i: usize = 0;
        while i < 6
            invariant
                0 <= i <= 6,
                self.wf(),
                start.square_steps(face_size, i as nat) == Some((self@, rects@)),
                self.history() == start_hist + rects@,
                self@.width == start.width,
                self@.height == start.height,
                checkpoint_x == start.cursor_x,
                checkpoint_y == start.cursor_y,
                checkpoint_row == start.row_height,
                start == old(self)@,
                start_hist == old(self).history(),
                old(self).wf(),
            decreases 6 - i,
        {
            let ghost before = rects@;
            match self.allocate_rect(face_size, face_size) {
                Some(rect) => {
                    rects.push(rect);
                    assert(self.history() =~= start_hist + rects@);
                },
                None => {
                    proof {
                        assert(start.square_steps(face_size, (i + 1) as nat) is None);
                        lemma_square_steps_none_propagates(start, face_size, (i + 1) as nat, 6);
                    }
                    self.cursor_x = checkpoint_x;
                    self.cursor_y = checkpoint_y;
                    self.row_height = checkpoint_row;
                    self.granted = Ghost(start_hist);
                    assert(self@ == start);
                    assert(self.history() == start_hist);
                    return None;
                },
            }
            i = i + 1;
        }
        Some(ShadowAtlasAllocation { rects })
    }
}

/// Once a run of square allocations fails, every longer run fails too.
pub proof fn lemma_square_steps_none_propagates(s: AtlasState, size: u32, k: nat, n: nat)
    requires
        k <= n,
        s.square_steps(size, k) is None,
    ensures
        s.square_steps(size, n) is None,
    decreases n,
{
    if k < n {
        lemma_square_steps_none_propagates(s, size, k, (n - 1) as nat);
    }
}

} // verus!
