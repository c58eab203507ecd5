//! The scene skin of the showcase: a room with a fire at the bottom of the stage, and above it, never
//! over it, a speech bubble that holds the current aside. Where each part goes is decided here.

use crate::present::{musing, musing_label, opt_text};
use crate::sprite::Area;
use vstd::prelude::*;
use vstd::string::*;

verus! {

/// The column of the firebox within the scene.
pub const FIRE_PX_X: u16 = 46;

/// The pixel row of the firebox within the scene. It is even, so that the rows of the flame pair into
/// cells as those of the scene do.
pub const FIRE_PX_Y: u16 = 24;

/// The column of the speaker's head within the scene.
pub const HEAD_COL: u16 = 64;

/// The end of the tail of a bubble.
pub const TAIL_TIP: char = '▾';

/// The shaft of the tail of a bubble.
pub const TAIL_SHAFT: char = '│';

/// Where the parts of the stage go.
#[derive(Copy, Clone, Debug, PartialEq, Eq, Structural)]
pub struct Stage {
    /// The room, at the bottom of the stage and in its middle.
    pub sprite: Area,
    /// The flame, over the firebox.
    pub flame: Area,
    /// The open space above the room.
    pub band: Area,
}

pub open spec fn least(a: int, b: int) -> int {
    if a <= b {
        a
    } else {
        b
    }
}

pub open spec fn most(a: int, b: int) -> int {
    if a <= b {
        b
    } else {
        a
    }
}

/// No part of the area lies beyond the last column or row that can be counted.
pub open spec fn fits(area: Area) -> bool {
    &&& area.x + area.width <= u16::MAX
    &&& area.y + area.height <= u16::MAX
}

/// The column of a room of `room` cells: in the middle of the stage.
pub open spec fn room_x(area: Area, room: (u16, u16)) -> int {
    area.x + (area.width - least(room.0 as int, area.width as int)) / 2
}

/// The row of a room of `room` cells: at the bottom of the stage.
pub open spec fn room_y(area: Area, room: (u16, u16)) -> int {
    most(area.bottom_end() - least(room.1 as int, area.height as int), 0)
}

/// The firebox of the room lies at a column and a row that can be counted.
pub open spec fn stageable(area: Area, room: (u16, u16)) -> bool {
    &&& room_x(area, room) + FIRE_PX_X <= u16::MAX
    &&& room_y(area, room) + FIRE_PX_Y / 2 <= u16::MAX
}

/// Where the parts of the stage go, for a room of `room` cells and a flame of `flame` cells.
pub open spec fn staged(area: Area, room: (u16, u16), flame: (u16, u16)) -> Stage {
    let w = least(room.0 as int, area.width as int);
    let h = least(room.1 as int, area.height as int);
    let x = room_x(area, room);
    let y = room_y(area, room);
    Stage {
        sprite: Area { x: x as u16, y: y as u16, width: w as u16, height: h as u16 },
        flame: Area {
            x: (x + FIRE_PX_X) as u16,
            y: (y + FIRE_PX_Y / 2) as u16,
            width: flame.0,
            height: flame.1,
        },
        band: Area { x: area.x, y: area.y, width: area.width, height: most(y - area.y, 0) as u16 },
    }
}

/// Lay out the stage for a room of `room` cells and a flame of `flame` cells.
pub fn draw_stage(area: Area, room: (u16, u16), flame: (u16, u16)) -> (s: Stage)
    requires
        stageable(area, room),
    ensures
        s == staged(area, room, flame),
{
    let w: u16 = if room.0 <= area.width {
        room.0
    } else {
        area.width
    };
    let h: u16 = if room.1 <= area.height {
        room.1
    } else {
        area.height
    };
    let x: u16 = area.x + (area.width - w) / 2;
    let bottom: u16 = area.bottom();
    let y: u16 = if bottom >= h {
        bottom - h
    } else {
        0
    };
    let above: u16 = if y >= area.y {
        y - area.y
    } else {
        0
    };
    Stage {
        sprite: Area { x, y, width: w, height: h },
        flame: Area { x: x + FIRE_PX_X, y: y + FIRE_PX_Y / 2, width: flame.0, height: flame.1 },
        band: Area { x: area.x, y: area.y, width: area.width, height: above },
    }
}

/// What a bubble holds, which decides how it looks.
#[derive(Copy, Clone, Debug, PartialEq, Eq, Structural)]
pub enum BubbleState {
    /// Nothing of the reply is there yet.
    Musing,
    /// The reply is being written.
    Forming,
    /// The last finished aside.
    Settled,
}

/// One cell of the tail of a bubble.
#[derive(Copy, Clone, Debug, PartialEq, Eq, Structural)]
pub struct TailCell {
    pub x: u16,
    pub y: u16,
    pub glyph: char,
}

/// A bubble: where it stands, what it says and how, and the tail that points at the speaker.
pub struct Bubble {
    pub area: Area,
    pub text: String,
    pub state: BubbleState,
    pub tail: Vec<TailCell>,
}

/// What is to be said, and how: the aside in flight goes before the last finished one.
pub open spec fn saying(
    last_aside: Option<Seq<char>>,
    pending: Option<Seq<char>>,
    anim_ms: u64,
) -> Option<(Seq<char>, BubbleState)> {
    match pending {
        Some(p) => if p.len() > 0 {
            Some((p + "▍"@, BubbleState::Forming))
        } else {
            Some((musing(anim_ms), BubbleState::Musing))
        },
        None => match last_aside {
            Some(a) => if a.len() > 0 {
                Some((a, BubbleState::Settled))
            } else {
                None
            },
            None => None,
        },
    }
}

/// Is there room for a bubble that can be read?
pub open spec fn roomy(band: Area) -> bool {
    band.height >= 4 && band.width >= 14
}

/// `n`, kept between `low` and `high`.
pub open spec fn kept(n: int, low: int, high: int) -> int {
    if n < low {
        low
    } else if n > high {
        high
    } else {
        n
    }
}

/// Where a bubble stands in a band: in its middle, at its bottom, with one row left for the tail.
pub open spec fn bubble_area(band: Area) -> Area {
    let w = kept(band.width - 8, 12, 60);
    let h = kept(band.height - 1, 3, 12);
    Area {
        x: (band.x + (band.width - w) / 2) as u16,
        y: most(band.bottom_end() - (h + 1), 0) as u16,
        width: w as u16,
        height: h as u16,
    }
}

/// The column of the speaker's head, or the last one of a room that is cut off before it.
pub open spec fn head_of(sprite: Area) -> int {
    least(sprite.x + HEAD_COL, most(sprite.right_end() - 1, 0))
}

/// The tail of a bubble: one cell in each row between the bubble and the room, the last of which is
/// the tip.
pub open spec fn tail_of(bubble: Area, sprite: Area) -> Seq<TailCell> {
    let top = bubble.bottom_end();
    let n = most(sprite.y - top, 0);
    Seq::new(
        n as nat,
        |i: int|
            TailCell {
                x: head_of(sprite) as u16,
                y: (top + i) as u16,
                glyph: if top + i + 1 == sprite.y {
                    TAIL_TIP
                } else {
                    TAIL_SHAFT
                },
            },
    )
}

/// The bubble and the head that it points at lie at columns that can be counted.
pub open spec fn countable_band(band: Area, sprite: Area) -> bool {
    &&& band.x + (band.width - kept(band.width - 8, 12, 60)) / 2 <= u16::MAX
    &&& sprite.x + HEAD_COL <= u16::MAX
}

/// Lay out the bubble in the band above the room: the aside in flight while there is one, else the
/// last finished one. There is none where there is nothing to say, or no room to say it.
pub fn draw_bubble(
    band: Area,
    sprite: Area,
    last_aside: Option<&str>,
    pending: Option<&str>,
    anim_ms: u64,
) -> (r: Option<Bubble>)
    requires
        saying(opt_text(last_aside), opt_text(pending), anim_ms) is Some && roomy(band)
            ==> countable_band(band, sprite),
    ensures
        match saying(opt_text(last_aside), opt_text(pending), anim_ms) {
            None => r is None,
            Some((text, state)) => if roomy(band) {
                &&& r matches Some(b)
                &&& b.area == bubble_area(band)
                &&& b.text@ == text
                &&& b.state == state
                &&& b.tail@ == tail_of(b.area, sprite)
            } else {
                r is None
            },
        },
{
    let (text, state): (String, BubbleState) = match pending {
        Some(p) => if !p.is_empty() {
            let mut text = p.to_owned();
            text.append("▍");
            (text, BubbleState::Forming)
        } else {
            (musing_label(anim_ms), BubbleState::Musing)
        },
        None => match last_aside {
            Some(a) => if !a.is_empty() {
                (a.to_owned(), BubbleState::Settled)
            } else {
                return None;
            },
            None => {
                return None;
            },
        },
    };
    if band.height < 4 || band.width < 14 {
        return None;
    }
    let w: u16 = if band.width - 8 < 12 {
        12
    } else if band.width - 8 > 60 {
        60
    } else {
        band.width - 8
    };
    let h: u16 = if band.height - 1 > 12 {
        12
    } else {
        band.height - 1
    };
    let bottom: u16 = band.bottom();
    let area = Area {
        x: band.x + (band.width - w) / 2,
        y: if bottom >= h + 1 {
            bottom - (h + 1)
        } else {
            0
        },
        width: w,
        height: h,
    };
    assert(area == bubble_area(band));
    Some(Bubble { area, text, state, tail: draw_tail(area, sprite) })
}

/// Lay out the tail of a bubble.
fn draw_tail(bubble: Area, sprite: Area) -> (tail: Vec<TailCell>)
    requires
        sprite.x + HEAD_COL <= u16::MAX,
    ensures
        tail@ == tail_of(bubble, sprite),
{
    let right: u16 = sprite.right();
    let last: u16 = if right == 0 {
        0
    } else {
        right - 1
    };
    let head: u16 = if sprite.x + HEAD_COL <= last {
        sprite.x + HEAD_COL
    } else {
        last
    };
    let top: u16 = bubble.bottom();
    let mut tail: Vec<TailCell> = Vec::new();
    let mut y: u16 = top;
    while y < sprite.y
        invariant
            top == bubble.bottom_end(),
            head == head_of(sprite),
            top <= y,
            y <= sprite.y || y == top,
            tail@ == tail_of(bubble, sprite).take(y - top),
        decreases sprite.y - y,
    {
        let glyph = if y + 1 == sprite.y {
            TAIL_TIP
        } else {
            TAIL_SHAFT
        };
        tail.push(TailCell { x: head, y, glyph });
        y = y + 1;
        assert(tail@ =~= tail_of(bubble, sprite).take(y - top));
    }
    assert(tail@ =~= tail_of(bubble, sprite));
    tail
}

/// The frame that follows a frame of an animation of `n` frames.
pub fn next_frame(index: usize, n: usize) -> (r: usize)
    requires
        index < n,
    ensures
        r == (index + 1) % (n as int),
        r < n,
{
    if index + 1 == n {
        assert((n as int) % (n as int) == 0) by (nonlinear_arith)
            requires
                n > 0,
        ;
        0
    } else {
        assert((index + 1) % (n as int) == index + 1) by (nonlinear_arith)
            requires
                0 <= index + 1 < n,
        ;
        index + 1
    }
}

// ---------------------------------------------------------------------------------------------
// Laws
// ---------------------------------------------------------------------------------------------

/// The room stands at the bottom of the stage and inside it, and the band is what is left above it.
pub proof fn lemma_stage_is_divided(area: Area, room: (u16, u16), flame: (u16, u16))
    requires
        fits(area),
    ensures
        ({
            let s = staged(area, room, flame);
            &&& area.x <= s.sprite.x
            &&& s.sprite.x + s.sprite.width <= area.x + area.width
            &&& s.sprite.y + s.sprite.height == area.y + area.height
            &&& s.band.y == area.y
            &&& s.band.y + s.band.height == s.sprite.y
        }),
{
}

/// The bubble and its tail stay in the band: neither ever covers the room. The tail starts right under
/// the bubble and ends in a tip right above the room.
pub proof fn lemma_bubble_never_covers_the_room(
    area: Area,
    room: (u16, u16),
    flame: (u16, u16),
)
    requires
        fits(area),
        roomy(staged(area, room, flame).band),
    ensures
        ({
            let s = staged(area, room, flame);
            let b = bubble_area(s.band);
            let tail = tail_of(b, s.sprite);
            &&& s.band.x <= b.x
            &&& b.x + b.width <= s.band.x + s.band.width
            &&& s.band.y <= b.y
            &&& b.y + b.height < s.sprite.y
            &&& tail.len() == s.sprite.y - (b.y + b.height)
            &&& tail.last().glyph == TAIL_TIP
            &&& forall|i: int|
                0 <= i < tail.len() ==> b.y + b.height <= (#[trigger] tail[i]).y < s.sprite.y && (
                tail[i].glyph == TAIL_TIP <==> i == tail.len() - 1)
        }),
{
    lemma_stage_is_divided(area, room, flame);
}

/// The room keeps its size as far as the stage has room for it, and stands in its middle, down at its
/// bottom. The flame keeps its size and burns 46 columns right of the room's left edge and 12 rows below
/// its top. What is left above the room, over the whole width, is the band.
pub proof fn lemma_where_the_parts_of_the_stage_go(
    area: Area,
    room: (u16, u16),
    flame: (u16, u16),
    s: Stage,
)
    requires
        fits(area),
        stageable(area, room),
        call_ensures(draw_stage, (area, room, flame), s),
    ensures
        room.0 <= area.width ==> s.sprite.width == room.0,
        room.0 > area.width ==> s.sprite.width == area.width,
        room.1 <= area.height ==> s.sprite.height == room.1,
        room.1 > area.height ==> s.sprite.height == area.height,
        ({
            let left = s.sprite.x - area.x;
            let right = area.x + area.width - (s.sprite.x + s.sprite.width);
            &&& left >= 0
            &&& left == right || left + 1 == right
        }),
        s.sprite.y + s.sprite.height == area.y + area.height,
        s.flame.x == s.sprite.x + 46,
        s.flame.y == s.sprite.y + 12,
        s.flame.width == flame.0,
        s.flame.height == flame.1,
        s.band.x == area.x,
        s.band.y == area.y,
        s.band.width == area.width,
        s.band.y + s.band.height == s.sprite.y,
{
}

/// A bubble says the aside in flight with a cursor behind it, or that one is coming, and else the last
/// finished one. There is none where there is nothing to say or the band is less than 14 columns by 4
/// rows. It is eight columns narrower than the band, but between 12 and 60 wide, and one row lower, but
/// between 3 and 12 high; it stands in the middle, with one row left below it. Its tail leads down to the
/// row above the room, over the speaker's head, 64 columns right of the room's left edge or at its last
/// column.
pub proof fn lemma_what_a_bubble_says_and_where(
    band: Area,
    sprite: Area,
    last_aside: Option<&str>,
    pending: Option<&str>,
    ms: u64,
    r: Option<Bubble>,
)
    requires
        fits(band),
        fits(sprite),
        sprite.width > 0,
        countable_band(band, sprite),
        call_ensures(draw_bubble, (band, sprite, last_aside, pending, ms), r),
    ensures
        r is Some <==> (pending is Some || (last_aside is Some && last_aside->Some_0@.len() > 0))
            && band.height >= 4 && band.width >= 14,
        r matches Some(b) ==> {
            &&& pending matches Some(p) ==> {
                &&& p@.len() > 0 ==> b.text@ == p@ + "▍"@ && b.state is Forming
                &&& p@.len() == 0 ==> b.text@ == musing(ms) && b.state is Musing
            }
            &&& pending is None ==> b.text@ == last_aside->Some_0@ && b.state is Settled
            &&& band.width <= 20 ==> b.area.width == 12
            &&& 20 <= band.width <= 68 ==> b.area.width == band.width - 8
            &&& band.width >= 68 ==> b.area.width == 60
            &&& band.height <= 13 ==> b.area.height == band.height - 1
            &&& band.height >= 13 ==> b.area.height == 12
            &&& {
                let left = b.area.x - band.x;
                let right = band.x + band.width - (b.area.x + b.area.width);
                left >= 0 && (left == right || left + 1 == right)
            }
            &&& b.area.y + b.area.height + 1 == band.y + band.height
            &&& forall|i: int|
                0 <= i < b.tail@.len() ==> {
                    &&& (#[trigger] b.tail@[i]).y == b.area.y + b.area.height + i
                    &&& sprite.width > 64 ==> b.tail@[i].x == sprite.x + 64
                    &&& sprite.width <= 64 ==> b.tail@[i].x == sprite.x + sprite.width - 1
                    &&& b.tail@[i].y + 1 == sprite.y ==> b.tail@[i].glyph == '▾'
                    &&& b.tail@[i].y + 1 != sprite.y ==> b.tail@[i].glyph == '│'
                }
            &&& b.area.y + b.area.height <= sprite.y ==> b.tail@.len() == sprite.y - (b.area.y
                + b.area.height)
        },
{
}

/// Frames follow one another, and the first follows the last.
pub proof fn lemma_frames_go_round(index: usize, n: usize, r: usize)
    requires
        index < n,
        call_ensures(next_frame, (index, n), r),
    ensures
        index + 1 < n ==> r == index + 1,
        index + 1 == n ==> r == 0,
{
    if index + 1 < n {
        vstd::arithmetic::div_mod::lemma_small_mod((index + 1) as nat, n as nat);
    } else {
        vstd::arithmetic::div_mod::lemma_mod_self_0(n as int);
    }
}

} // verus!
