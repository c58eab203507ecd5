//! Half-block sprites. A terminal cell shows one glyph in one foreground and one background colour, so
//! an upper half block paints two pixels, one above the other. A sprite is a grid of characters over a
//! palette; a palette entry of `null` is transparent, and that half of a cell keeps what lies under it.

use crate::json::{parse, read, Json, JsonView};
use crate::number::F64;
use crate::text::chars_of;
use vstd::prelude::*;

verus! {

/// One pixel: a colour, or nothing where it is transparent.
pub type Px = Option<(u8, u8, u8)>;

/// A sprite of `w` by `h` pixels, row by row.
pub struct Sprite {
    pub w: u16,
    pub h: u16,
    pub px: Vec<Px>,
}

/// An animation: its frames, and how many of them are shown per second.
pub struct Anim {
    pub fps: F64,
    pub frames: Vec<Sprite>,
}

/// The pattern of 8.0, the frame rate where none is given.
pub const DEFAULT_FPS_BITS: u64 = 0x4020_0000_0000_0000;

/// Why a sprite or an animation could not be made.
#[derive(Copy, Clone, Debug, PartialEq, Eq, Structural)]
pub enum SpriteError {
    /// The text is not JSON.
    NotJson,
    /// There is no `palette` object.
    NoPalette,
    /// A palette key is empty.
    EmptyKey,
    /// A palette key has more than one character.
    LongKey,
    /// A colour is neither `null` nor a list.
    NotAColor,
    /// A colour does not have three components.
    ComponentCount,
    /// A component of a colour is not an integer.
    NotAnInteger,
    /// There is no `rows` list.
    NoRows,
    /// The list of rows is empty.
    EmptyRows,
    /// A row is not a text.
    RowNotText { row: usize },
    /// A row is not as wide as the first.
    RowWidth { row: usize, width: usize, expected: usize },
    /// A row uses a character that the palette does not define.
    UndefinedChar { row: usize, ch: char },
    /// There is no `frames` list.
    NoFrames,
    /// The list of frames is empty.
    EmptyFrames,
}

/// The contents of a sprite.
pub struct SpriteView {
    pub w: u16,
    pub h: u16,
    pub px: Seq<Px>,
}

impl View for Sprite {
    type V = SpriteView;

    open spec fn view(&self) -> SpriteView {
        SpriteView { w: self.w, h: self.h, px: self.px@ }
    }
}

// ---------------------------------------------------------------------------------------------
// Reading a grid
// ---------------------------------------------------------------------------------------------

/// The first field of an object with this key, from field `from` on.
pub open spec fn field_from(
    fields: Seq<(Seq<char>, JsonView)>,
    key: Seq<char>,
    from: int,
) -> Option<JsonView>
    decreases fields.len() - from,
{
    if from < 0 || from >= fields.len() {
        None
    } else if fields[from].0 == key {
        Some(fields[from].1)
    } else {
        field_from(fields, key, from + 1)
    }
}

/// A field of a value; none where it is no object or has no such field.
pub open spec fn field(j: JsonView, key: Seq<char>) -> Option<JsonView> {
    match j {
        JsonView::Object(fields) => field_from(fields, key, 0),
        _ => None,
    }
}

/// An integer as a colour component.
pub open spec fn clamped(n: i64) -> u8 {
    if n < 0 {
        0
    } else if n > 255 {
        255
    } else {
        n as u8
    }
}

/// A component of a colour.
pub open spec fn component(j: JsonView) -> Result<u8, SpriteError> {
    match j {
        JsonView::Number { whole: Some(n), bits } => Ok(clamped(n)),
        _ => Err(SpriteError::NotAnInteger),
    }
}

/// A palette value as a pixel.
pub open spec fn pixel(j: JsonView) -> Result<Px, SpriteError> {
    match j {
        JsonView::Null => Ok(None),
        JsonView::List(c) => if c.len() != 3 {
            Err(SpriteError::ComponentCount)
        } else {
            match (component(c[0]), component(c[1]), component(c[2])) {
                (Ok(r), Ok(g), Ok(b)) => Ok(Some((r, g, b))),
                _ => Err(SpriteError::NotAnInteger),
            }
        },
        _ => Err(SpriteError::NotAColor),
    }
}

/// A palette field as a character and its pixel.
pub open spec fn entry(f: (Seq<char>, JsonView)) -> Result<(char, Px), SpriteError> {
    if f.0.len() == 0 {
        Err(SpriteError::EmptyKey)
    } else if f.0.len() > 1 {
        Err(SpriteError::LongKey)
    } else {
        match pixel(f.1) {
            Ok(p) => Ok((f.0[0], p)),
            Err(e) => Err(e),
        }
    }
}

/// The first `n` fields of a palette; the first one that is none decides.
pub open spec fn palette_of(
    fields: Seq<(Seq<char>, JsonView)>,
    n: int,
) -> Result<Seq<(char, Px)>, SpriteError>
    decreases n,
{
    if n <= 0 {
        Ok(Seq::empty())
    } else {
        match palette_of(fields, n - 1) {
            Err(e) => Err(e),
            Ok(p) => match entry(fields[n - 1]) {
                Err(e) => Err(e),
                Ok(x) => Ok(p.push(x)),
            },
        }
    }
}

/// What a palette makes of a character: its latest entry for it.
pub open spec fn look_up(palette: Seq<(char, Px)>, c: char) -> Option<Px>
    decreases palette.len(),
{
    if palette.len() == 0 {
        None
    } else if palette.last().0 == c {
        Some(palette.last().1)
    } else {
        look_up(palette.drop_last(), c)
    }
}

/// The pixels of the first `n` characters of a row; the first undefined one decides.
pub open spec fn row_pixels(
    palette: Seq<(char, Px)>,
    row: Seq<char>,
    y: usize,
    n: int,
) -> Result<Seq<Px>, SpriteError>
    decreases n,
{
    if n <= 0 {
        Ok(Seq::empty())
    } else {
        match row_pixels(palette, row, y, n - 1) {
            Err(e) => Err(e),
            Ok(p) => match look_up(palette, row[n - 1]) {
                None => Err(SpriteError::UndefinedChar { row: y, ch: row[n - 1] }),
                Some(x) => Ok(p.push(x)),
            },
        }
    }
}

/// The width of a row; 0 where it is no text.
pub open spec fn row_width(j: JsonView) -> nat {
    match j {
        JsonView::Text(s) => s.len(),
        _ => 0,
    }
}

/// The pixels of the first `n` rows, each as wide as the first; the first row at fault decides.
pub open spec fn grid_of(
    palette: Seq<(char, Px)>,
    rows: Seq<JsonView>,
    n: int,
) -> Result<Seq<Px>, SpriteError>
    decreases n,
{
    if n <= 0 {
        Ok(Seq::empty())
    } else {
        match grid_of(palette, rows, n - 1) {
            Err(e) => Err(e),
            Ok(grid) => match rows[n - 1] {
                JsonView::Text(s) => if s.len() != row_width(rows[0]) {
                    Err(
                        SpriteError::RowWidth {
                            row: (n - 1) as usize,
                            width: s.len() as usize,
                            expected: row_width(rows[0]) as usize,
                        },
                    )
                } else {
                    match row_pixels(palette, s, (n - 1) as usize, s.len() as int) {
                        Err(e) => Err(e),
                        Ok(p) => Ok(grid + p),
                    }
                },
                _ => Err(SpriteError::RowNotText { row: (n - 1) as usize }),
            },
        }
    }
}

/// The sprite of a grid: the palette is read first, then the rows.
pub open spec fn sprite_of(j: JsonView) -> Result<SpriteView, SpriteError> {
    match field(j, "palette"@) {
        Some(JsonView::Object(fields)) => match palette_of(fields, fields.len() as int) {
            Err(e) => Err(e),
            Ok(palette) => match field(j, "rows"@) {
                Some(JsonView::List(rows)) => if rows.len() == 0 {
                    Err(SpriteError::EmptyRows)
                } else {
                    match grid_of(palette, rows, rows.len() as int) {
                        Err(e) => Err(e),
                        Ok(px) => Ok(
                            SpriteView {
                                w: row_width(rows[0]) as u16,
                                h: rows.len() as u16,
                                px,
                            },
                        ),
                    }
                },
                _ => Err(SpriteError::NoRows),
            },
        },
        _ => Err(SpriteError::NoPalette),
    }
}

impl Json {
    /// A field of an object.
    pub fn get(&self, key: &str) -> (r: Option<&Json>)
        ensures
            match r {
                Some(j) => field(self.tree(), key@) == Some(j.tree()),
                None => field(self.tree(), key@) is None,
            },
    {
        match self {
            Json::Object(fields) => {
                let k = key.to_owned();
                let ghost all = self.tree()->Object_0;
                let mut i: usize = 0;
                while i < fields.len()
                    invariant
                        i <= fields@.len(),
                        k@ == key@,
                        all.len() == fields@.len(),
                        forall|n: int|
                            0 <= n < all.len() ==> #[trigger] all[n] == (
                                fields@[n].0@,
                                fields@[n].1.tree(),
                            ),
                        field_from(all, key@, 0) == field_from(all, key@, i as int),
                        self.tree() == JsonView::Object(all),
                    decreases fields@.len() - i,
                {
                    assert(all[i as int] == (fields@[i as int].0@, fields@[i as int].1.tree()));
                    if fields[i].0 == k {
                        return Some(&fields[i].1);
                    }
                    i = i + 1;
                }
                None
            },
            _ => None,
        }
    }
}

fn read_component(j: &Json) -> (r: Result<u8, SpriteError>)
    ensures
        r == component(j.tree()),
{
    match j {
        Json::Number { whole, bits } => match whole {
            Some(n) => {
                let n: i64 = *n;
                if n < 0 {
                    Ok(0)
                } else if n > 255 {
                    Ok(255)
                } else {
                    Ok(n as u8)
                }
            },
            None => Err(SpriteError::NotAnInteger),
        },
        _ => Err(SpriteError::NotAnInteger),
    }
}

/// A palette value as a pixel: `null`, or a list of three integers, each brought into range.
fn coerce_pixel(j: &Json) -> (r: Result<Px, SpriteError>)
    ensures
        r == pixel(j.tree()),
{
    match j {
        Json::Null => Ok(None),
        Json::List(c) => {
            let ghost items = j.tree()->List_0;
            assert(items.len() == c@.len());
            if c.len() != 3 {
                return Err(SpriteError::ComponentCount);
            }
            assert(items[0] == c@[0].tree());
            assert(items[1] == c@[1].tree());
            assert(items[2] == c@[2].tree());
            match (read_component(&c[0]), read_component(&c[1]), read_component(&c[2])) {
                (Ok(r), Ok(g), Ok(b)) => Ok(Some((r, g, b))),
                _ => Err(SpriteError::NotAnInteger),
            }
        },
        _ => Err(SpriteError::NotAColor),
    }
}

fn read_palette(fields: &Vec<(String, Json)>, Ghost(all): Ghost<Seq<(Seq<char>, JsonView)>>) -> (r:
    Result<Vec<(char, Px)>, SpriteError>)
    requires
        all.len() == fields@.len(),
        forall|n: int|
            0 <= n < all.len() ==> #[trigger] all[n] == (fields@[n].0@, fields@[n].1.tree()),
    ensures
        match r {
            Ok(p) => palette_of(all, all.len() as int) == Ok::<_, SpriteError>(p@),
            Err(e) => palette_of(all, all.len() as int) == Err::<Seq<(char, Px)>, _>(e),
        },
{
    let mut p: Vec<(char, Px)> = Vec::new();
    let mut i: usize = 0;
    while i < fields.len()
        invariant
            i <= fields@.len(),
            all.len() == fields@.len(),
            forall|n: int|
                0 <= n < all.len() ==> #[trigger] all[n] == (fields@[n].0@, fields@[n].1.tree()),
            palette_of(all, i as int) == Ok::<_, SpriteError>(p@),
        decreases fields@.len() - i,
    {
        let key = chars_of(fields[i].0.as_str());
        assert(all[i as int] == (fields@[i as int].0@, fields@[i as int].1.tree()));
        if key.len() == 0 {
            proof {
                lemma_palette_fault(all, i + 1, SpriteError::EmptyKey);
            }
            return Err(SpriteError::EmptyKey);
        }
        if key.len() > 1 {
            proof {
                lemma_palette_fault(all, i + 1, SpriteError::LongKey);
            }
            return Err(SpriteError::LongKey);
        }
        match coerce_pixel(&fields[i].1) {
            Ok(x) => {
                p.push((key[0], x));
            },
            Err(e) => {
                proof {
                    lemma_palette_fault(all, i + 1, e);
                }
                return Err(e);
            },
        }
        i = i + 1;
    }
    Ok(p)
}

/// A fault in the first fields of a palette is a fault of the whole.
proof fn lemma_palette_fault(fields: Seq<(Seq<char>, JsonView)>, n: int, e: SpriteError)
    requires
        0 <= n <= fields.len(),
        palette_of(fields, n) == Err::<Seq<(char, Px)>, _>(e),
    ensures
        palette_of(fields, fields.len() as int) == Err::<Seq<(char, Px)>, _>(e),
    decreases fields.len() - n,
{
    if n < fields.len() {
        assert(palette_of(fields, n + 1) == Err::<Seq<(char, Px)>, _>(e));
        lemma_palette_fault(fields, n + 1, e);
    }
}

fn find(palette: &Vec<(char, Px)>, c: char) -> (r: Option<Px>)
    ensures
        r == look_up(palette@, c),
{
    let mut i: usize = palette.len();
    assert(palette@.take(i as int) =~= palette@);
    while i > 0
        invariant
            i <= palette@.len(),
            look_up(palette@, c) == look_up(palette@.take(i as int), c),
        decreases i,
    {
        assert(palette@.take(i as int).drop_last() =~= palette@.take(i - 1));
        if palette[i - 1].0 == c {
            return Some(palette[i - 1].1);
        }
        i = i - 1;
    }
    None
}

/// A fault in the first characters of a row is a fault of the row.
proof fn lemma_row_fault(
    palette: Seq<(char, Px)>,
    row: Seq<char>,
    y: usize,
    n: int,
    e: SpriteError,
)
    requires
        0 <= n <= row.len(),
        row_pixels(palette, row, y, n) == Err::<Seq<Px>, _>(e),
    ensures
        row_pixels(palette, row, y, row.len() as int) == Err::<Seq<Px>, _>(e),
    decreases row.len() - n,
{
    if n < row.len() {
        assert(row_pixels(palette, row, y, n + 1) == Err::<Seq<Px>, _>(e));
        lemma_row_fault(palette, row, y, n + 1, e);
    }
}

/// A fault in the first rows is a fault of the grid.
proof fn lemma_grid_fault(palette: Seq<(char, Px)>, rows: Seq<JsonView>, n: int, e: SpriteError)
    requires
        0 <= n <= rows.len(),
        grid_of(palette, rows, n) == Err::<Seq<Px>, _>(e),
    ensures
        grid_of(palette, rows, rows.len() as int) == Err::<Seq<Px>, _>(e),
    decreases rows.len() - n,
{
    if n < rows.len() {
        assert(grid_of(palette, rows, n + 1) == Err::<Seq<Px>, _>(e));
        lemma_grid_fault(palette, rows, n + 1, e);
    }
}

/// A row gives one pixel a character.
proof fn lemma_row_len(palette: Seq<(char, Px)>, row: Seq<char>, y: usize, n: int)
    requires
        0 <= n <= row.len(),
    ensures
        row_pixels(palette, row, y, n) matches Ok(p) ==> p.len() == n,
    decreases n,
{
    if n > 0 {
        lemma_row_len(palette, row, y, n - 1);
    }
}

/// A grid gives as many pixels as its rows have characters.
proof fn lemma_grid_len(palette: Seq<(char, Px)>, rows: Seq<JsonView>, n: int)
    requires
        0 <= n <= rows.len(),
    ensures
        grid_of(palette, rows, n) matches Ok(p) ==> p.len() == n * row_width(rows[0]),
    decreases n,
{
    if n > 0 {
        lemma_grid_len(palette, rows, n - 1);
        let w = row_width(rows[0]) as int;
        assert((n - 1) * w + w == n * w) by (nonlinear_arith);
        match rows[n - 1] {
            JsonView::Text(s) => {
                lemma_row_len(palette, s, (n - 1) as usize, s.len() as int);
            },
            _ => {},
        }
    } else {
        assert(0 * row_width(rows[0]) == 0) by (nonlinear_arith);
    }
}

fn read_row(palette: &Vec<(char, Px)>, s: &str, y: usize, grid: &mut Vec<Px>) -> (r: Result<
    (),
    SpriteError,
>)
    ensures
        match r {
            Ok(()) => row_pixels(palette@, s@, y, s@.len() as int) matches Ok(p) && final(grid)@
                == old(grid)@ + p,
            Err(e) => row_pixels(palette@, s@, y, s@.len() as int) == Err::<Seq<Px>, _>(e),
        },
{
    let row = chars_of(s);
    let ghost before = grid@;
    let ghost mut done: Seq<Px> = Seq::empty();
    let mut x: usize = 0;
    assert(grid@ =~= before + done);
    while x < row.len()
        invariant
            x <= row@.len(),
            row@ == s@,
            row_pixels(palette@, row@, y, x as int) == Ok::<_, SpriteError>(done),
            grid@ == before + done,
        decreases row@.len() - x,
    {
        match find(palette, row[x]) {
            Some(p) => {
                grid.push(p);
                proof {
                    assert(grid@ =~= before + done.push(p));
                    done = done.push(p);
                }
            },
            None => {
                proof {
                    lemma_row_fault(
                        palette@,
                        row@,
                        y,
                        x + 1,
                        SpriteError::UndefinedChar { row: y, ch: row@[x as int] },
                    );
                }
                return Err(SpriteError::UndefinedChar { row: y, ch: row[x] });
            },
        }
        x = x + 1;
    }
    Ok(())
}

impl Sprite {
    /// The pixels cover the sprite.
    pub open spec fn wf(&self) -> bool {
        self.w * self.h <= self.px@.len()
    }

    /// Read a sprite from a text: an object with a `palette` and `rows`.
    pub fn from_json(text: &str) -> (r: Result<Sprite, SpriteError>)
        ensures
            match r {
                Ok(s) => {
                    &&& s.wf()
                    &&& read(text@) matches Some(j)
                    &&& sprite_of(j) == Ok::<_, SpriteError>(s@)
                },
                Err(e) => match read(text@) {
                    Some(j) => sprite_of(j) == Err::<SpriteView, _>(e),
                    None => e == SpriteError::NotJson,
                },
            },
    {
        match parse(text) {
            Some(j) => Sprite::from_value(&j),
            None => Err(SpriteError::NotJson),
        }
    }

    /// Make a sprite of a grid: each character of a row stands for its palette entry, and all rows are
    /// as wide as the first.
    pub fn from_value(v: &Json) -> (r: Result<Sprite, SpriteError>)
        ensures
            match r {
                Ok(s) => s.wf() && sprite_of(v.tree()) == Ok::<_, SpriteError>(s@),
                Err(e) => sprite_of(v.tree()) == Err::<SpriteView, _>(e),
            },
    {
        let palette = match v.get("palette") {
            Some(Json::Object(fields)) => {
                let ghost all = (Json::Object(*fields)).tree()->Object_0;
                match read_palette(fields, Ghost(all)) {
                    Ok(p) => p,
                    Err(e) => {
                        return Err(e);
                    },
                }
            },
            _ => {
                return Err(SpriteError::NoPalette);
            },
        };
        let rows = match v.get("rows") {
            Some(Json::List(rows)) => rows,
            _ => {
                return Err(SpriteError::NoRows);
            },
        };
        let ghost all = (Json::List(*rows)).tree()->List_0;
        assert(all.len() == rows@.len());
        if rows.len() == 0 {
            return Err(SpriteError::EmptyRows);
        }
        let mut grid: Vec<Px> = Vec::new();
        let mut width: usize = 0;
        let mut y: usize = 0;
        while y < rows.len()
            invariant
                y <= rows@.len(),
                all.len() == rows@.len(),
                forall|n: int| 0 <= n < all.len() ==> #[trigger] all[n] == rows@[n].tree(),
                y > 0 ==> width == row_width(all[0]),
                grid_of(palette@, all, y as int) == Ok::<_, SpriteError>(grid@),
                sprite_of(v.tree()) == (match grid_of(palette@, all, all.len() as int) {
                    Err(e) => Err(e),
                    Ok(px) => Ok(
                        SpriteView { w: row_width(all[0]) as u16, h: all.len() as u16, px },
                    ),
                }),
            decreases rows@.len() - y,
        {
            assert(all[y as int] == rows@[y as int].tree());
            match &rows[y] {
                Json::Text(s) => {
                    let w: usize = chars_of(s.as_str()).len();
                    if y == 0 {
                        width = w;
                    } else if w != width {
                        proof {
                            lemma_grid_fault(
                                palette@,
                                all,
                                y + 1,
                                SpriteError::RowWidth { row: y, width: w, expected: width },
                            );
                        }
                        return Err(SpriteError::RowWidth { row: y, width: w, expected: width });
                    }
                    match read_row(&palette, s.as_str(), y, &mut grid) {
                        Ok(()) => {},
                        Err(e) => {
                            proof {
                                lemma_grid_fault(palette@, all, y + 1, e);
                            }
                            return Err(e);
                        },
                    }
                },
                _ => {
                    proof {
                        lemma_grid_fault(palette@, all, y + 1, SpriteError::RowNotText { row: y });
                    }
                    return Err(SpriteError::RowNotText { row: y });
                },
            }
            y = y + 1;
        }
        let n: usize = rows.len();
        let w: u16 = #[verifier::truncate] (width as u16);
        let h: u16 = #[verifier::truncate] (n as u16);
        proof {
            lemma_grid_len(palette@, all, n as int);
            assert(#[verifier::truncate] (width as u16) <= width) by (bit_vector);
            assert(#[verifier::truncate] (n as u16) <= n) by (bit_vector);
            assert(w * h <= n * width) by (nonlinear_arith)
                requires
                    w <= width,
                    h <= n,
            ;
        }
        Ok(Sprite { w, h, px: grid })
    }

    /// The pixel at a place; nothing outside the sprite.
    pub open spec fn at(self, x: int, y: int) -> Px {
        if 0 <= x < self.w && 0 <= y < self.h {
            self.px@[y * self.w + x]
        } else {
            None
        }
    }

    /// The pixel at a place; nothing outside the sprite.
    pub fn get(&self, x: u16, y: u16) -> (p: Px)
        requires
            self.wf(),
        ensures
            p == self.at(x as int, y as int),
    {
        if x < self.w && y < self.h {
            proof {
                lemma_index(x as int, y as int, self.w as int, self.h as int);
            }
            let row: u32 = y as u32 * self.w as u32;
            let i: usize = row as usize + x as usize;
            self.px[i]
        } else {
            None
        }
    }

    /// How many cells the sprite takes: one a column, and one for two rows.
    pub fn cell_size(&self) -> (r: (u16, u16))
        ensures
            r.0 == self.w,
            r.1 == (self.h + 1) / 2,
    {
        (self.w, self.h / 2 + self.h % 2)
    }
}

proof fn lemma_index(x: int, y: int, w: int, h: int)
    requires
        0 <= x < w <= u16::MAX,
        0 <= y < h <= u16::MAX,
    ensures
        0 <= y * w,
        y * w + x < w * h,
        w * h <= u32::MAX,
{
    assert(0 <= y * w && y * w + x < w * h) by (nonlinear_arith)
        requires
            0 <= x < w,
            0 <= y < h,
    ;
    assert(w * h <= 0xffff * 0xffff) by (nonlinear_arith)
        requires
            0 <= w <= 0xffff,
            0 <= h <= 0xffff,
    ;
}

/// The frames of an animation; the first one at fault decides.
pub open spec fn frames_of(list: Seq<JsonView>, n: int) -> Result<Seq<SpriteView>, SpriteError>
    decreases n,
{
    if n <= 0 {
        Ok(Seq::empty())
    } else {
        match frames_of(list, n - 1) {
            Err(e) => Err(e),
            Ok(f) => match sprite_of(list[n - 1]) {
                Err(e) => Err(e),
                Ok(s) => Ok(f.push(s)),
            },
        }
    }
}

/// The frame rate of an animation: its `fps`, or 8.
pub open spec fn rate_of(j: JsonView) -> F64 {
    match field(j, "fps"@) {
        Some(JsonView::Number { whole, bits: Some(b) }) => F64(b),
        _ => F64(DEFAULT_FPS_BITS),
    }
}

/// The animation of a value.
pub open spec fn anim_of(j: JsonView) -> Result<(F64, Seq<SpriteView>), SpriteError> {
    match field(j, "frames"@) {
        Some(JsonView::List(list)) => if list.len() == 0 {
            Err(SpriteError::EmptyFrames)
        } else {
            match frames_of(list, list.len() as int) {
                Err(e) => Err(e),
                Ok(f) => Ok((rate_of(j), f)),
            }
        },
        _ => Err(SpriteError::NoFrames),
    }
}

/// The contents of a list of sprites.
pub open spec fn sprites(v: Seq<Sprite>) -> Seq<SpriteView> {
    v.map_values(|s: Sprite| s@)
}

proof fn lemma_frames_fault(list: Seq<JsonView>, n: int, e: SpriteError)
    requires
        0 <= n <= list.len(),
        frames_of(list, n) == Err::<Seq<SpriteView>, _>(e),
    ensures
        frames_of(list, list.len() as int) == Err::<Seq<SpriteView>, _>(e),
    decreases list.len() - n,
{
    if n < list.len() {
        assert(frames_of(list, n + 1) == Err::<Seq<SpriteView>, _>(e));
        lemma_frames_fault(list, n + 1, e);
    }
}

impl Anim {
    /// Read an animation from a text: an object with `frames`, each of them a grid, and an `fps`.
    pub fn from_json(text: &str) -> (r: Result<Anim, SpriteError>)
        ensures
            match r {
                Ok(a) => {
                    &&& read(text@) matches Some(j)
                    &&& anim_of(j) == Ok::<_, SpriteError>((a.fps, sprites(a.frames@)))
                    &&& a.frames@.len() > 0
                    &&& forall|i: int| 0 <= i < a.frames@.len() ==> (#[trigger] a.frames@[i]).wf()
                },
                Err(e) => match read(text@) {
                    Some(j) => anim_of(j) == Err::<(F64, Seq<SpriteView>), _>(e),
                    None => e == SpriteError::NotJson,
                },
            },
    {
        match parse(text) {
            Some(j) => Anim::from_value(&j),
            None => Err(SpriteError::NotJson),
        }
    }

    /// Make an animation of a value.
    pub fn from_value(v: &Json) -> (r: Result<Anim, SpriteError>)
        ensures
            match r {
                Ok(a) => {
                    &&& anim_of(v.tree()) == Ok::<_, SpriteError>((a.fps, sprites(a.frames@)))
                    &&& a.frames@.len() > 0
                    &&& forall|i: int| 0 <= i < a.frames@.len() ==> (#[trigger] a.frames@[i]).wf()
                },
                Err(e) => anim_of(v.tree()) == Err::<(F64, Seq<SpriteView>), _>(e),
            },
    {
        let fps: F64 = match v.get("fps") {
            Some(Json::Number { whole, bits: Some(b) }) => F64(*b),
            _ => F64(DEFAULT_FPS_BITS),
        };
        assert(fps == rate_of(v.tree()));
        let list = match v.get("frames") {
            Some(Json::List(list)) => list,
            _ => {
                return Err(SpriteError::NoFrames);
            },
        };
        let ghost all = (Json::List(*list)).tree()->List_0;
        assert(all.len() == list@.len());
        if list.len() == 0 {
            return Err(SpriteError::EmptyFrames);
        }
        let mut frames: Vec<Sprite> = Vec::new();
        let mut i: usize = 0;
        assert(sprites(frames@) =~= Seq::empty());
        while i < list.len()
            invariant
                i <= list@.len(),
                all.len() == list@.len(),
                forall|n: int| 0 <= n < all.len() ==> #[trigger] all[n] == list@[n].tree(),
                frames@.len() == i,
                forall|k: int| 0 <= k < frames@.len() ==> (#[trigger] frames@[k]).wf(),
                frames_of(all, i as int) == Ok::<_, SpriteError>(sprites(frames@)),
                anim_of(v.tree()) == (match frames_of(all, all.len() as int) {
                    Err(e) => Err(e),
                    Ok(f) => Ok((fps, f)),
                }),
            decreases list@.len() - i,
        {
            assert(all[i as int] == list@[i as int].tree());
            match Sprite::from_value(&list[i]) {
                Ok(s) => {
                    let ghost before = sprites(frames@);
                    let ghost view = s@;
                    frames.push(s);
                    assert(sprites(frames@) =~= before.push(view));
                },
                Err(e) => {
                    proof {
                        lemma_frames_fault(all, i + 1, e);
                    }
                    return Err(e);
                },
            }
            i = i + 1;
        }
        Ok(Anim { fps, frames })
    }
}

// ---------------------------------------------------------------------------------------------
// Painting
// ---------------------------------------------------------------------------------------------

/// A rectangle of cells.
#[derive(Copy, Clone, Debug, PartialEq, Eq, Structural)]
pub struct Area {
    pub x: u16,
    pub y: u16,
    pub width: u16,
    pub height: u16,
}

impl Area {
    /// The first column right of the area, as far as columns can be counted.
    pub open spec fn right_end(self) -> int {
        if self.x + self.width > u16::MAX {
            u16::MAX as int
        } else {
            self.x + self.width
        }
    }

    /// The first row below the area, as far as rows can be counted.
    pub open spec fn bottom_end(self) -> int {
        if self.y + self.height > u16::MAX {
            u16::MAX as int
        } else {
            self.y + self.height
        }
    }

    /// The first column right of the area.
    pub fn right(&self) -> (r: u16)
        ensures
            r == self.right_end(),
    {
        self.x.saturating_add(self.width)
    }

    /// The first row below the area.
    pub fn bottom(&self) -> (r: u16)
        ensures
            r == self.bottom_end(),
    {
        self.y.saturating_add(self.height)
    }
}

/// What is painted into a cell.
#[derive(Copy, Clone, Debug, PartialEq, Eq)]
pub enum Paint {
    /// An upper half block in this colour; the lower half keeps what lies under it.
    Upper { top: (u8, u8, u8) },
    /// A lower half block in this colour; the upper half keeps what lies under it.
    Lower { bottom: (u8, u8, u8) },
    /// An upper half block in the first colour on a ground of the second.
    Both { top: (u8, u8, u8), bottom: (u8, u8, u8) },
}

/// What a pair of pixels paints: nothing where both are transparent.
pub open spec fn paint_of(top: Px, bottom: Px) -> Option<Paint> {
    match (top, bottom) {
        (None, None) => None,
        (Some(t), None) => Some(Paint::Upper { top: t }),
        (None, Some(b)) => Some(Paint::Lower { bottom: b }),
        (Some(t), Some(b)) => Some(Paint::Both { top: t, bottom: b }),
    }
}

/// What a pair of pixels paints.
pub fn paint(top: Px, bottom: Px) -> (r: Option<Paint>)
    ensures
        r == paint_of(top, bottom),
{
    match (top, bottom) {
        (None, None) => None,
        (Some(t), None) => Some(Paint::Upper { top: t }),
        (None, Some(b)) => Some(Paint::Lower { bottom: b }),
        (Some(t), Some(b)) => Some(Paint::Both { top: t, bottom: b }),
    }
}

/// One painted cell.
#[derive(Copy, Clone, Debug, PartialEq, Eq)]
pub struct Blot {
    pub x: u16,
    pub y: u16,
    pub paint: Paint,
}

/// The cells of cell row `cy` that are painted by its first `n` columns: those inside the area whose
/// pair of pixels is not transparent.
pub open spec fn row_blots(s: Sprite, area: Area, cy: int, n: int) -> Seq<Blot>
    decreases n,
{
    if n <= 0 {
        Seq::empty()
    } else {
        let before = row_blots(s, area, cy, n - 1);
        let x = n - 1;
        if area.x + x < area.right_end() && area.y + cy < area.bottom_end() {
            match paint_of(s.at(x, 2 * cy), s.at(x, 2 * cy + 1)) {
                Some(paint) => before.push(
                    Blot { x: (area.x + x) as u16, y: (area.y + cy) as u16, paint },
                ),
                None => before,
            }
        } else {
            before
        }
    }
}

/// The cells that are painted by the first `n` cell rows.
pub open spec fn all_blots(s: Sprite, area: Area, n: int) -> Seq<Blot>
    decreases n,
{
    if n <= 0 {
        Seq::empty()
    } else {
        all_blots(s, area, n - 1) + row_blots(s, area, n - 1, s.w as int)
    }
}

impl Sprite {
    /// The cells that the sprite paints into an area, from its top left corner and clipped to it.
    /// Transparent cells are left out, so that what lies under them shows through.
    pub fn render(&self, area: Area) -> (blots: Vec<Blot>)
        requires
            self.wf(),
        ensures
            blots@ == all_blots(*self, area, (self.h + 1) / 2),
    {
        let mut blots: Vec<Blot> = Vec::new();
        let rows: u16 = self.cell_size().1;
        let mut cy: u16 = 0;
        while cy < rows
            invariant
                self.wf(),
                rows == (self.h + 1) / 2,
                cy <= rows,
                blots@ == all_blots(*self, area, cy as int),
            decreases rows - cy,
        {
            let ghost above = blots@;
            let mut x: u16 = 0;
            assert(blots@ =~= above + row_blots(*self, area, cy as int, 0));
            while x < self.w
                invariant
                    self.wf(),
                    rows == (self.h + 1) / 2,
                    cy < rows,
                    x <= self.w,
                    blots@ == above + row_blots(*self, area, cy as int, x as int),
                decreases self.w - x,
            {
                let sx: u32 = area.x as u32 + x as u32;
                let sy: u32 = area.y as u32 + cy as u32;
                if sx < area.right() as u32 && sy < area.bottom() as u32 {
                    let top = self.get(x, 2 * cy);
                    let bottom: Px = if 2 * cy + 1 < self.h {
                        self.get(x, 2 * cy + 1)
                    } else {
                        None
                    };
                    match paint(top, bottom) {
                        Some(p) => {
                            blots.push(Blot { x: sx as u16, y: sy as u16, paint: p });
                        },
                        None => {},
                    }
                }
                x = x + 1;
                assert(blots@ =~= above + row_blots(*self, area, cy as int, x as int));
            }
            cy = cy + 1;
        }
        blots
    }
}

// ---------------------------------------------------------------------------------------------
// Laws
// ---------------------------------------------------------------------------------------------

/// A sprite that has been read has exactly one pixel for each character of its rows, as long as its
/// sides can be counted.
pub proof fn lemma_sprite_covers_its_grid(j: JsonView)
    ensures
        sprite_of(j) matches Ok(s) ==> {
            &&& field(j, "rows"@) matches Some(JsonView::List(rows))
            &&& rows.len() > 0
            &&& s.px.len() == rows.len() * row_width(rows[0])
            &&& rows.len() <= u16::MAX && row_width(rows[0]) <= u16::MAX ==> s.w == row_width(
                rows[0],
            ) && s.h == rows.len()
        },
{
    match field(j, "palette"@) {
        Some(JsonView::Object(fields)) => match palette_of(fields, fields.len() as int) {
            Ok(palette) => match field(j, "rows"@) {
                Some(JsonView::List(rows)) => {
                    if rows.len() > 0 {
                        lemma_grid_len(palette, rows, rows.len() as int);
                    }
                },
                _ => {},
            },
            Err(_) => {},
        },
        _ => {},
    }
}

/// Every painted cell lies inside the area.
pub proof fn lemma_blots_stay_inside(s: Sprite, area: Area, n: int)
    ensures
        forall|i: int|
            0 <= i < all_blots(s, area, n).len() ==> {
                let b = #[trigger] all_blots(s, area, n)[i];
                area.x <= b.x < area.right_end() && area.y <= b.y < area.bottom_end()
            },
    decreases n,
{
    if n > 0 {
        lemma_blots_stay_inside(s, area, n - 1);
        lemma_row_blots_stay_inside(s, area, n - 1, s.w as int);
        let above = all_blots(s, area, n - 1);
        let row = row_blots(s, area, n - 1, s.w as int);
        assert forall|i: int| 0 <= i < (above + row).len() implies ({
            let b = #[trigger] (above + row)[i];
            area.x <= b.x < area.right_end() && area.y <= b.y < area.bottom_end()
        }) by {
            if i < above.len() {
                assert((above + row)[i] == above[i]);
            } else {
                assert((above + row)[i] == row[i - above.len()]);
            }
        }
    }
}

proof fn lemma_row_blots_stay_inside(s: Sprite, area: Area, cy: int, n: int)
    requires
        0 <= cy,
        n <= s.w,
    ensures
        forall|i: int|
            0 <= i < row_blots(s, area, cy, n).len() ==> {
                let b = #[trigger] row_blots(s, area, cy, n)[i];
                area.x <= b.x < area.right_end() && area.y <= b.y < area.bottom_end()
            },
    decreases n,
{
    if n > 0 {
        lemma_row_blots_stay_inside(s, area, cy, n - 1);
    }
}

/// The field at `i` is the first under this name.
pub open spec fn first_under(fields: Seq<(Seq<char>, JsonView)>, key: Seq<char>, i: int) -> bool {
    &&& 0 <= i < fields.len()
    &&& fields[i].0 == key
    &&& forall|k: int| 0 <= k < i ==> (#[trigger] fields[k]).0 != key
}

/// The first field of an object under this name holds this value.
pub open spec fn named(j: JsonView, key: Seq<char>, v: JsonView) -> bool {
    match j {
        JsonView::Object(fields) => exists|i: int|
            (#[trigger] first_under(fields, key, i)) && fields[i].1 == v,
        _ => false,
    }
}

proof fn lemma_field_is_named(fields: Seq<(Seq<char>, JsonView)>, key: Seq<char>, from: int)
    requires
        0 <= from <= fields.len(),
        forall|k: int| 0 <= k < from ==> (#[trigger] fields[k]).0 != key,
    ensures
        field_from(fields, key, from) matches Some(v) ==> named(JsonView::Object(fields), key, v),
    decreases fields.len() - from,
{
    if from < fields.len() {
        if fields[from].0 == key {
            assert(first_under(fields, key, from));
            assert(field_from(fields, key, from) == Some(fields[from].1));
            let j = JsonView::Object(fields);
            assert(j->Object_0 == fields);
            assert(first_under(j->Object_0, key, from));
            assert(j->Object_0[from].1 == fields[from].1);
            assert(exists|i: int|
                (#[trigger] first_under(j->Object_0, key, i)) && j->Object_0[i].1
                    == fields[from].1);
            assert(named(j, key, fields[from].1));
        } else {
            lemma_field_is_named(fields, key, from + 1);
            assert(field_from(fields, key, from) == field_from(fields, key, from + 1));
        }
    }
}

/// A number, held between nought and 255.
pub open spec fn held_to_a_byte(n: int) -> int {
    if n < 0 {
        0
    } else if n > 255 {
        255
    } else {
        n
    }
}

/// A palette value says this pixel: nothing for `null`, and else the colour of three whole numbers, red,
/// green and blue, each held between nought and 255.
pub open spec fn says_pixel(j: JsonView, p: Px) -> bool {
    match p {
        None => j is Null,
        Some((r, g, b)) => j matches JsonView::List(c) && c.len() == 3 && {
            &&& c[0] matches JsonView::Number { whole: Some(x), .. } && r == held_to_a_byte(x as int)
            &&& c[1] matches JsonView::Number { whole: Some(y), .. } && g == held_to_a_byte(y as int)
            &&& c[2] matches JsonView::Number { whole: Some(z), .. } && b == held_to_a_byte(z as int)
        },
    }
}

/// The last field of a palette under this character says this pixel.
pub open spec fn stands_for(fields: Seq<(Seq<char>, JsonView)>, c: char, p: Px) -> bool {
    exists|i: int|
        {
            &&& 0 <= i < fields.len()
            &&& (#[trigger] fields[i]).0 == seq![c]
            &&& says_pixel(fields[i].1, p)
            &&& forall|k: int| i < k < fields.len() ==> (#[trigger] fields[k]).0 != seq![c]
        }
}

proof fn lemma_palette_stands_for(
    fields: Seq<(Seq<char>, JsonView)>,
    n: int,
    palette: Seq<(char, Px)>,
    c: char,
)
    requires
        0 <= n <= fields.len(),
        palette_of(fields, n) == Ok::<Seq<(char, Px)>, SpriteError>(palette),
    ensures
        palette.len() == n,
        look_up(palette, c) matches Some(p) ==> stands_for(fields.take(n), c, p),
    decreases n,
{
    if n > 0 {
        let before = palette_of(fields, n - 1)->Ok_0;
        let x = entry(fields[n - 1])->Ok_0;
        assert(palette == before.push(x));
        lemma_palette_stands_for(fields, n - 1, before, c);
        let f = fields.take(n);
        assert(palette.drop_last() =~= before);
        assert(f[n - 1] == fields[n - 1]);
        assert(f[n - 1].0 =~= seq![x.0]);
        if x.0 == c {
            assert(says_pixel(f[n - 1].1, x.1));
            assert(stands_for(f, c, x.1));
        } else if look_up(palette, c) is Some {
            let p = look_up(palette, c)->Some_0;
            let g = fields.take(n - 1);
            let i = choose|i: int|
                {
                    &&& 0 <= i < g.len()
                    &&& (#[trigger] g[i]).0 == seq![c]
                    &&& says_pixel(g[i].1, p)
                    &&& forall|k: int| i < k < g.len() ==> (#[trigger] g[k]).0 != seq![c]
                };
            assert(f[i] == g[i]);
            assert forall|k: int| i < k < f.len() implies (#[trigger] f[k]).0 != seq![c] by {
                if k < n - 1 {
                    assert(f[k] == g[k]);
                } else {
                    assert(seq![x.0][0] != seq![c][0]);
                }
            }
            assert(stands_for(f, c, p));
        }
    }
}

proof fn lemma_row_stands_for(
    palette: Seq<(char, Px)>,
    row: Seq<char>,
    y: usize,
    n: int,
    px: Seq<Px>,
)
    requires
        0 <= n <= row.len(),
        row_pixels(palette, row, y, n) == Ok::<Seq<Px>, SpriteError>(px),
    ensures
        px.len() == n,
        forall|x: int| 0 <= x < n ==> look_up(palette, row[x]) == Some(#[trigger] px[x]),
    decreases n,
{
    if n > 0 {
        let before = row_pixels(palette, row, y, n - 1)->Ok_0;
        lemma_row_stands_for(palette, row, y, n - 1, before);
        assert forall|x: int| 0 <= x < n implies look_up(palette, row[x]) == Some(
            #[trigger] px[x],
        ) by {
            if x < n - 1 {
                assert(px[x] == before[x]);
            }
        }
    }
}

proof fn lemma_grid_stands_for(
    palette: Seq<(char, Px)>,
    rows: Seq<JsonView>,
    n: int,
    px: Seq<Px>,
    x: int,
    y: int,
)
    requires
        0 <= y < n <= rows.len(),
        0 <= x < row_width(rows[0]),
        grid_of(palette, rows, n) == Ok::<Seq<Px>, SpriteError>(px),
    ensures
        px.len() == n * row_width(rows[0]),
        rows[y] matches JsonView::Text(s) && s.len() == row_width(rows[0]) && look_up(palette, s[x])
            == Some(px[y * row_width(rows[0]) + x]),
    decreases n,
{
    let w = row_width(rows[0]) as int;
    lemma_grid_len(palette, rows, n);
    let grid = grid_of(palette, rows, n - 1)->Ok_0;
    lemma_grid_len(palette, rows, n - 1);
    let s = rows[n - 1]->Text_0;
    let p = row_pixels(palette, s, (n - 1) as usize, s.len() as int)->Ok_0;
    lemma_row_stands_for(palette, s, (n - 1) as usize, s.len() as int, p);
    assert(px == grid + p);
    assert(n * w == (n - 1) * w + w) by (nonlinear_arith);
    if y == n - 1 {
        assert(px[(n - 1) * w + x] == p[x]);
    } else {
        lemma_grid_stands_for(palette, rows, n - 1, grid, x, y);
        assert(y * w + x < (n - 1) * w) by (nonlinear_arith)
            requires
                0 <= y < n - 1,
                0 <= x < w,
        ;
        assert(0 <= y * w + x) by (nonlinear_arith)
            requires
                0 <= y,
                0 <= x < w,
        ;
    }
}

/// Each pixel of a sprite is what its palette says of its character: row by row and column by column, the
/// pixel is that of the last palette field under the character that stands there.
pub proof fn lemma_each_pixel_is_its_palette_entry(v: &Json, s: Sprite, x: int, y: int) -> (parts: (
    Seq<(Seq<char>, JsonView)>,
    Seq<JsonView>,
))
    requires
        call_ensures(Sprite::from_value, (v,), Ok(s)),
    ensures
        ({
            let (fields, rows) = parts;
            &&& named(v.tree(), "palette"@, JsonView::Object(fields))
            &&& named(v.tree(), "rows"@, JsonView::List(rows))
            &&& rows.len() > 0
            &&& rows[0] matches JsonView::Text(first) ==> {
                let w = first.len() as int;
                &&& s.px@.len() == rows.len() * w
                &&& 0 <= y < rows.len() && 0 <= x < w ==> (rows[y] matches JsonView::Text(row)
                    && row.len() == w && stands_for(fields, row[x], s.px@[y * w + x]))
            }
        }),
{
    let j = v.tree();
    let fields = field(j, "palette"@)->Some_0->Object_0;
    let rows = field(j, "rows"@)->Some_0->List_0;
    let all = j->Object_0;
    lemma_field_is_named(all, "palette"@, 0);
    lemma_field_is_named(all, "rows"@, 0);
    let palette = palette_of(fields, fields.len() as int)->Ok_0;
    let px = grid_of(palette, rows, rows.len() as int)->Ok_0;
    lemma_grid_len(palette, rows, rows.len() as int);
    assert(s@.px == px);
    let w = row_width(rows[0]) as int;
    if 0 <= y < rows.len() && 0 <= x < w {
        lemma_grid_stands_for(palette, rows, rows.len() as int, px, x, y);
        let row = rows[y]->Text_0;
        lemma_palette_stands_for(fields, fields.len() as int, palette, row[x]);
        assert(fields.take(fields.len() as int) =~= fields);
    }
    (fields, rows)
}

/// An animation runs at its own rate, or at eight frames a second where it names none.
pub proof fn lemma_the_rate_of_an_animation(v: &Json, a: Anim)
    requires
        call_ensures(Anim::from_value, (v,), Ok(a)),
    ensures
        forall|whole: Option<i64>, b: u64|
            #[trigger] named(v.tree(), "fps"@, (JsonView::Number { whole, bits: Some(b) }))
                ==> a.fps == F64(b),
        (forall|f: JsonView| !#[trigger] named(v.tree(), "fps"@, f)) ==> a.fps == F64(
            0x4020_0000_0000_0000,
        ),
{
    let j = v.tree();
    let all = j->Object_0;
    lemma_field_is_named(all, "fps"@, 0);
    assert forall|whole: Option<i64>, b: u64|
        #[trigger] named(j, "fps"@, (JsonView::Number { whole, bits: Some(b) })) implies a.fps
        == F64(b) by {
        lemma_named_is_field(all, "fps"@, 0, JsonView::Number { whole, bits: Some(b) });
    }
}

proof fn lemma_named_is_field(
    fields: Seq<(Seq<char>, JsonView)>,
    key: Seq<char>,
    from: int,
    v: JsonView,
)
    requires
        0 <= from <= fields.len(),
        forall|k: int| 0 <= k < from ==> (#[trigger] fields[k]).0 != key,
        named(JsonView::Object(fields), key, v),
    ensures
        field_from(fields, key, from) == Some(v),
    decreases fields.len() - from,
{
    let i = choose|i: int| #[trigger] first_under(fields, key, i) && fields[i].1 == v;
    assert(from <= i);
    if from < i {
        assert(fields[from].0 != key);
        lemma_named_is_field(fields, key, from + 1, v);
    }
}

/// The pixel of a sprite at a place; nothing outside of it.
pub open spec fn pixel_at(s: Sprite, x: int, y: int) -> Px {
    if 0 <= x < s.w && 0 <= y < s.h {
        s.px@[y * s.w + x]
    } else {
        None
    }
}

/// The cell in column `cx` and cell row `cy` shows the pixel of row `2 * cy` above that of the row below.
pub open spec fn shows(paint: Paint, top: Px, bottom: Px) -> bool {
    match paint {
        Paint::Upper { top: t } => top == Some(t) && bottom is None,
        Paint::Lower { bottom: b } => top is None && bottom == Some(b),
        Paint::Both { top: t, bottom: b } => top == Some(t) && bottom == Some(b),
    }
}

/// The blot is that of a cell of the sprite.
pub open spec fn blot_of(s: Sprite, area: Area, b: Blot, cx: int, cy: int) -> bool {
    &&& b.x == area.x + cx
    &&& b.y == area.y + cy
    &&& shows(b.paint, pixel_at(s, cx, 2 * cy), pixel_at(s, cx, 2 * cy + 1))
}

/// The blot is that of some cell of the sprite in its first `rows` cell rows, inside the area.
pub open spec fn blot_of_some(s: Sprite, area: Area, b: Blot, rows: int) -> bool {
    exists|cx: int, cy: int|
        0 <= cx < s.w && 0 <= cy < rows && inside(area, cx, cy) && #[trigger] blot_of(
            s,
            area,
            b,
            cx,
            cy,
        )
}

/// A cell lies inside an area.
pub open spec fn inside(area: Area, cx: int, cy: int) -> bool {
    &&& 0 <= cx < area.width
    &&& 0 <= cy < area.height
}

proof fn lemma_row_blots_show(s: Sprite, area: Area, cy: int, n: int)
    requires
        area.x + area.width <= u16::MAX,
        area.y + area.height <= u16::MAX,
        0 <= n <= s.w,
        0 <= cy,
    ensures
        forall|i: int|
            0 <= i < row_blots(s, area, cy, n).len() ==> blot_of_some(
                s,
                area,
                #[trigger] row_blots(s, area, cy, n)[i],
                cy + 1,
            ),
        forall|cx: int|
            0 <= cx < n && inside(area, cx, cy) && (#[trigger] pixel_at(s, cx, 2 * cy) is Some
                || pixel_at(s, cx, 2 * cy + 1) is Some) ==> exists|i: int|
                0 <= i < row_blots(s, area, cy, n).len() && #[trigger] blot_of(
                    s,
                    area,
                    row_blots(s, area, cy, n)[i],
                    cx,
                    cy,
                ),
    decreases n,
{
    if n > 0 {
        lemma_row_blots_show(s, area, cy, n - 1);
        let before = row_blots(s, area, cy, n - 1);
        let all = row_blots(s, area, cy, n);
        let x = n - 1;
        assert forall|i: int| 0 <= i < all.len() implies blot_of_some(
            s,
            area,
            #[trigger] all[i],
            cy + 1,
        ) by {
            if i < before.len() {
                assert(all[i] == before[i]);
            } else {
                assert(blot_of(s, area, all[i], x, cy));
            }
        }
        assert forall|cx: int|
            0 <= cx < n && inside(area, cx, cy) && (#[trigger] pixel_at(s, cx, 2 * cy) is Some
                || pixel_at(s, cx, 2 * cy + 1) is Some) implies exists|i: int|
            0 <= i < all.len() && #[trigger] blot_of(s, area, all[i], cx, cy) by {
            if cx < x {
                let i = choose|i: int|
                    0 <= i < before.len() && #[trigger] blot_of(s, area, before[i], cx, cy);
                assert(all[i] == before[i]);
                assert(blot_of(s, area, all[i], cx, cy));
            } else {
                let i = before.len() as int;
                assert(blot_of(s, area, all[i], cx, cy));
            }
        }
    }
}

proof fn lemma_all_blots_show(s: Sprite, area: Area, n: int)
    requires
        area.x + area.width <= u16::MAX,
        area.y + area.height <= u16::MAX,
        0 <= n,
    ensures
        forall|i: int|
            0 <= i < all_blots(s, area, n).len() ==> blot_of_some(
                s,
                area,
                #[trigger] all_blots(s, area, n)[i],
                n,
            ),
        forall|cx: int, cy: int|
            0 <= cx < s.w && 0 <= cy < n && #[trigger] inside(area, cx, cy) && (pixel_at(
                s,
                cx,
                2 * cy,
            ) is Some || pixel_at(s, cx, 2 * cy + 1) is Some) ==> exists|i: int|
                0 <= i < all_blots(s, area, n).len() && #[trigger] blot_of(
                    s,
                    area,
                    all_blots(s, area, n)[i],
                    cx,
                    cy,
                ),
    decreases n,
{
    if n > 0 {
        lemma_all_blots_show(s, area, n - 1);
        lemma_row_blots_show(s, area, n - 1, s.w as int);
        let before = all_blots(s, area, n - 1);
        let row = row_blots(s, area, n - 1, s.w as int);
        let all = all_blots(s, area, n);
        assert forall|i: int| 0 <= i < all.len() implies blot_of_some(
            s,
            area,
            #[trigger] all[i],
            n,
        ) by {
            if i < before.len() {
                assert(all[i] == before[i]);
                assert(blot_of_some(s, area, before[i], n - 1));
                let (cx, cy) = choose|cx: int, cy: int|
                    0 <= cx < s.w && 0 <= cy < n - 1 && inside(area, cx, cy) && #[trigger] blot_of(
                        s,
                        area,
                        before[i],
                        cx,
                        cy,
                    );
                assert(blot_of(s, area, all[i], cx, cy));
            } else {
                assert(all[i] == row[i - before.len()]);
                assert(blot_of_some(s, area, row[i - before.len()], n));
            }
        }
        assert forall|cx: int, cy: int|
            0 <= cx < s.w && 0 <= cy < n && #[trigger] inside(area, cx, cy) && (pixel_at(
                s,
                cx,
                2 * cy,
            ) is Some || pixel_at(s, cx, 2 * cy + 1) is Some) implies exists|i: int|
            0 <= i < all.len() && #[trigger] blot_of(s, area, all[i], cx, cy) by {
            if cy < n - 1 {
                let i = choose|i: int|
                    0 <= i < before.len() && #[trigger] blot_of(s, area, before[i], cx, cy);
                assert(all[i] == before[i]);
                assert(blot_of(s, area, all[i], cx, cy));
            } else {
                assert(pixel_at(s, cx, 2 * cy) is Some || pixel_at(s, cx, 2 * cy + 1) is Some);
                let i = choose|i: int|
                    0 <= i < row.len() && #[trigger] blot_of(s, area, row[i], cx, cy);
                assert(all[before.len() + i] == row[i]);
                assert(blot_of(s, area, all[before.len() + i], cx, cy));
            }
        }
    }
}

/// Rendering paints exactly the cells of the sprite that lie inside the area and are not transparent, each
/// with the two pixels that it covers: every blot is that of such a cell, and every such cell has one.
pub proof fn lemma_what_a_sprite_paints(s: Sprite, area: Area, blots: Vec<Blot>)
    requires
        call_ensures(Sprite::render, (&s, area), blots),
        area.x + area.width <= u16::MAX,
        area.y + area.height <= u16::MAX,
    ensures
        forall|i: int|
            0 <= i < blots@.len() ==> blot_of_some(
                s,
                area,
                #[trigger] blots@[i],
                (s.h + 1) / 2,
            ),
        forall|cx: int, cy: int|
            0 <= cx < s.w && 0 <= cy && 2 * cy < s.h && #[trigger] inside(area, cx, cy) && (pixel_at(
                s,
                cx,
                2 * cy,
            ) is Some || pixel_at(s, cx, 2 * cy + 1) is Some) ==> exists|i: int|
                0 <= i < blots@.len() && #[trigger] blot_of(s, area, blots@[i], cx, cy),
{
    let n = (s.h + 1) / 2;
    lemma_all_blots_show(s, area, n);
}

proof fn lemma_sound_palette(fields: Seq<(Seq<char>, JsonView)>, n: int)
    requires
        0 <= n <= fields.len(),
        forall|i: int| 0 <= i < fields.len() ==> sound_entry(#[trigger] fields[i]),
    ensures
        palette_of(fields, n) is Ok,
    decreases n,
{
    if n > 0 {
        lemma_sound_palette(fields, n - 1);
        assert(sound_entry(fields[n - 1]));
    }
}

/// A palette field of one character whose value says a pixel.
pub open spec fn sound_entry(f: (Seq<char>, JsonView)) -> bool {
    f.0.len() == 1 && exists|p: Px| #[trigger] says_pixel(f.1, p)
}

proof fn lemma_defined_chars(
    fields: Seq<(Seq<char>, JsonView)>,
    n: int,
    palette: Seq<(char, Px)>,
    c: char,
    at: int,
)
    requires
        0 <= at < n <= fields.len(),
        fields[at].0 == seq![c],
        palette_of(fields, n) == Ok::<Seq<(char, Px)>, SpriteError>(palette),
    ensures
        look_up(palette, c) is Some,
    decreases n,
{
    let before = palette_of(fields, n - 1)->Ok_0;
    let x = entry(fields[n - 1])->Ok_0;
    assert(palette == before.push(x));
    assert(palette.drop_last() =~= before);
    if at < n - 1 {
        lemma_defined_chars(fields, n - 1, before, c, at);
    } else {
        assert(fields[at].0[0] == c);
    }
}

/// Every row is a text as wide as the first, of characters that the palette has.
pub open spec fn sound_rows(fields: Seq<(Seq<char>, JsonView)>, rows: Seq<JsonView>, w: nat) -> bool {
    forall|y: int|
        0 <= y < rows.len() ==> ((#[trigger] rows[y]) matches JsonView::Text(s) && s.len() == w
            && has_all(fields, s))
}

/// The palette has every character of a row.
pub open spec fn has_all(fields: Seq<(Seq<char>, JsonView)>, s: Seq<char>) -> bool {
    forall|x: int|
        0 <= x < s.len() ==> exists|at: int|
            0 <= at < fields.len() && (#[trigger] fields[at]).0 == seq![#[trigger] s[x]]
}

proof fn lemma_sound_row(
    fields: Seq<(Seq<char>, JsonView)>,
    palette: Seq<(char, Px)>,
    row: Seq<char>,
    y: usize,
    n: int,
)
    requires
        0 <= n <= row.len(),
        has_all(fields, row),
        palette_of(fields, fields.len() as int) == Ok::<Seq<(char, Px)>, SpriteError>(palette),
    ensures
        row_pixels(palette, row, y, n) is Ok,
    decreases n,
{
    if n > 0 {
        lemma_sound_row(fields, palette, row, y, n - 1);
        let c = row[n - 1];
        let at = choose|at: int| 0 <= at < fields.len() && (#[trigger] fields[at]).0 == seq![c];
        lemma_defined_chars(fields, fields.len() as int, palette, c, at);
    }
}

proof fn lemma_sound_grid(
    fields: Seq<(Seq<char>, JsonView)>,
    palette: Seq<(char, Px)>,
    rows: Seq<JsonView>,
    n: int,
)
    requires
        0 <= n <= rows.len(),
        rows.len() > 0,
        sound_rows(fields, rows, row_width(rows[0])),
        palette_of(fields, fields.len() as int) == Ok::<Seq<(char, Px)>, SpriteError>(palette),
    ensures
        grid_of(palette, rows, n) is Ok,
    decreases n,
{
    if n > 0 {
        lemma_sound_grid(fields, palette, rows, n - 1);
        let s = rows[n - 1]->Text_0;
        assert(rows[n - 1] is Text);
        lemma_sound_row(fields, palette, s, (n - 1) as usize, s.len() as int);
    }
}

/// A sound grid is read: where every palette field has one character and says a pixel, and there are rows,
/// all as wide as the first and made of characters that the palette has, a sprite comes out.
pub proof fn lemma_a_sound_grid_is_read(
    v: &Json,
    r: Result<Sprite, SpriteError>,
    fields: Seq<(Seq<char>, JsonView)>,
    rows: Seq<JsonView>,
    w: nat,
)
    requires
        call_ensures(Sprite::from_value, (v,), r),
        named(v.tree(), "palette"@, JsonView::Object(fields)),
        named(v.tree(), "rows"@, JsonView::List(rows)),
        rows.len() > 0,
        forall|i: int| 0 <= i < fields.len() ==> sound_entry(#[trigger] fields[i]),
        sound_rows(fields, rows, w),
    ensures
        r is Ok,
{
    let all = v.tree()->Object_0;
    lemma_named_is_field(all, "palette"@, 0, JsonView::Object(fields));
    lemma_named_is_field(all, "rows"@, 0, JsonView::List(rows));
    lemma_sound_palette(fields, fields.len() as int);
    let palette = palette_of(fields, fields.len() as int)->Ok_0;
    assert(rows[0] is Text);
    lemma_sound_grid(fields, palette, rows, rows.len() as int);
}

/// Two rows of pixels share a row of cells, an odd last row having one to itself; a pixel is found row by
/// row, and there is none outside; and a pair of pixels paints what of it is not transparent.
pub proof fn lemma_how_pixels_make_cells(
    s: Sprite,
    x: u16,
    y: u16,
    p: Px,
    cells: (u16, u16),
    top: Px,
    bottom: Px,
    r: Option<Paint>,
)
    requires
        call_ensures(Sprite::get, (&s, x, y), p),
        call_ensures(Sprite::cell_size, (&s,), cells),
        call_ensures(paint, (top, bottom), r),
    ensures
        p == pixel_at(s, x as int, y as int),
        cells.0 == s.w,
        2 * cells.1 == s.h || 2 * cells.1 == s.h + 1,
        r is None <==> top is None && bottom is None,
        r matches Some(q) ==> shows(q, top, bottom),
{
}

} // verus!
