//! What a renderer that lives in its own thread decides: which frame it
//! shows, which overlays it tracks, what it answers to a packet, and where
//! on the screen each tile of a frame goes. Drawing and the channels are
//! left to whoever runs it.
use vstd::prelude::*;
use bracket_lib::terminal::VirtualKeyCode;
use crate::helpers::{cell_point, RectDimension};

verus! {

/// The key codes of `bracket_lib`, `VirtualKeyCode`. The renderer hands a
/// key on and never looks at it.
#[verifier::external_type_specification]
#[verifier::external_body]
pub struct ExVirtualKeyCode(bracket_lib::terminal::VirtualKeyCode);

/// A colour: red, green, blue and opacity, each in parts of 255.
#[derive(Debug, Clone, Copy, PartialEq, Eq, Structural)]
pub struct Color {
    pub r: u8,
    pub g: u8,
    pub b: u8,
    pub a: u8,
}

impl Color {
    /// Opaque white.
    pub fn white() -> (c: Color)
        ensures
            c == (Color { r: 255, g: 255, b: 255, a: 255 }),
    {
        Color { r: 255, g: 255, b: 255, a: 255 }
    }

    /// Opaque black.
    pub fn black() -> (c: Color)
        ensures
            c == (Color { r: 0, g: 0, b: 0, a: 255 }),
    {
        Color { r: 0, g: 0, b: 0, a: 255 }
    }
}

/// The colour of a character and the colour behind it.
#[derive(Debug, Clone, Copy, PartialEq, Eq, Structural)]
pub struct ColorPair {
    pub fg: Color,
    pub bg: Color,
}

/// One character of a frame with its two colours.
#[derive(Debug, Clone, Copy, PartialEq, Eq, Structural)]
pub struct Tile {
    pub(crate) colors: ColorPair,
    pub(crate) char: char,
}

/// A tile as contracts see it.
pub struct TileView {
    pub glyph: char,
    pub fg: Color,
    pub bg: Color,
}

impl View for Tile {
    type V = TileView;

    open(crate) spec fn view(&self) -> TileView {
        TileView { glyph: self.char, fg: self.colors.fg, bg: self.colors.bg }
    }
}

impl Tile {
    pub fn new(char: char, fg: Color, bg: Color) -> (t: Self)
        ensures
            t@ == (TileView { glyph: char, fg, bg }),
    {
        Tile { colors: ColorPair { fg, bg }, char }
    }

    /// The character of the tile.
    pub fn glyph(&self) -> (c: char)
        ensures
            c == self@.glyph,
    {
        self.char
    }

    /// The colour of the character.
    pub fn fg(&self) -> (c: Color)
        ensures
            c == self@.fg,
    {
        self.colors.fg
    }

    /// The colour behind the character.
    pub fn bg(&self) -> (c: Color)
        ensures
            c == self@.bg,
    {
        self.colors.bg
    }
}

/// How far an overlay lies from the left or the right edge of the screen.
#[derive(Debug, Clone, Copy, PartialEq, Eq, Structural)]
pub enum OffsetX {
    Left(i8),
    Righ(i8),
}

/// How far an overlay lies from the top or the bottom edge of the screen.
#[derive(Debug, Clone, Copy, PartialEq, Eq, Structural)]
pub enum OffsetY {
    Above(i8),
    Below(i8),
}

/// Information necessary to render a single frame.
#[derive(Debug, Clone)]
pub struct Frame {
    pub to_render: Vec<Tile>,
    pub dimensions: RectDimension,
}

impl Frame {
    /// A frame of the given dimensions without a tile.
    pub fn new(dimensions: RectDimension) -> (f: Self)
        ensures
            f.to_render@ == Seq::<Tile>::empty(),
            f.dimensions == dimensions,
    {
        Self { to_render: Vec::new(), dimensions }
    }
}

/// An overlay: a frame with its place on the screen.
pub struct GUI {
    pub offset: (OffsetX, OffsetY),
    pub to_render: Option<Frame>,
}

/// A packet to the renderer telling it what to render.
pub enum RenderPacket {
    NewFrame(Frame),
    ChangeSize(RectDimension),
    // priority
    RegisterGUI(u8, Option<GUI>),
    // priority,
    RegisterGUIs(u8, Vec<Option<GUI>>),
    UpdateGUI { id: u8, update: Frame },
}

/// A packet from the renderer forwarding IO.
pub enum RenderTick {
    Key(VirtualKeyCode),
    LoopClosed,
    // priority, id
    RegisteredGUI(u8, usize),
    // priority, ids
    RegisteredGUIs(u8, Vec<usize>),
}

/// The number of columns of a frame that shows a long string.
pub const LINE_WIDTH: usize = 100;

/// The dimensions of the frame that shows a string of `len` bytes: up to
/// a hundred bytes one line of three rows' height, beyond that lines of a
/// hundred columns. Both numbers are cut to what a byte holds.
pub open spec fn string_dimensions(len: int) -> RectDimension {
    if len > LINE_WIDTH {
        RectDimension { width: 100, height: (((len - 100) / 100 + 1) % 256) as u8 }
    } else {
        RectDimension { width: len as u8, height: 3 }
    }
}

/// The length in bytes of a string of the given characters.
pub open spec fn byte_length(text: Seq<char>) -> usize {
    vstd::utf8::encode_utf8(text).len() as usize
}

/// The tile that shows `c` in white on black.
pub open spec fn plain_tile(c: char) -> TileView {
    TileView {
        glyph: c,
        fg: Color { r: 255, g: 255, b: 255, a: 255 },
        bg: Color { r: 0, g: 0, b: 0, a: 255 },
    }
}

/// Take a string and construct a frame to render that string: a tile in
/// white on black for each character.
///
/// It's the caller's job to ensure that the rendering window has proper
/// dimensions for the returned frame.
pub fn string_to_frame(string: String) -> (frame: Frame)
    ensures
        frame.dimensions == string_dimensions(byte_length(string@) as int),
        frame.to_render.len() == string@.len(),
        forall|k: int|
            0 <= k < string@.len() ==> (#[trigger] frame.to_render[k])@ == plain_tile(string@[k]),
{
    let text = string.as_str();
    let len: usize = text.len();
    let dimension = if len > LINE_WIDTH {
        let y: usize = (len - 100) / 100 + 1;
        RectDimension::new(100, (y % 256) as u8)
    } else {
        RectDimension::new(len as u8, 3)
    };
    let count: usize = text.unicode_len();
    let mut tiles: Vec<Tile> = Vec::new();
    let mut i: usize = 0;
    while i < count
        invariant
            i <= count,
            count == text@.len(),
            text@ == string@,
            tiles.len() == i,
            forall|k: int| 0 <= k < i ==> (#[trigger] tiles[k])@ == plain_tile(text@[k]),
        decreases count - i,
    {
        tiles.push(Tile::new(text.get_char(i), Color::white(), Color::black()));
        i = i + 1;
    }
    Frame { to_render: tiles, dimensions: dimension }
}


/// What the renderer decides: the frame that it shows, whether the screen
/// is out of date, and the overlays that it tracks, each with its draw
/// priority. The place of an overlay in the list is its id.
pub struct Renderer {
    pub(crate) cur_frame: Frame,
    pub(crate) should_rerender: bool,
    pub(crate) guis: Vec<(u8, Option<GUI>)>,
}

/// A renderer as contracts see it.
pub struct RendererView {
    pub frame: Frame,
    pub rerender: bool,
    pub guis: Seq<(u8, Option<GUI>)>,
}

impl View for Renderer {
    type V = RendererView;

    open(crate) spec fn view(&self) -> RendererView {
        RendererView { frame: self.cur_frame, rerender: self.should_rerender, guis: self.guis@ }
    }
}

/// What is left to do after a packet has been taken in.
pub enum RenderEffect {
    /// Nothing.
    Nothing,
    /// The window is to be resized.
    Resize(RectDimension),
    /// The packet is to be answered.
    Reply(RenderTick),
    /// The packet asks for what the renderer cannot do yet. It changed
    /// nothing.
    NotImplemented,
}

/// The number that `to_cp437` of `bracket_lib` gives for a character: its
/// place in the code page 437, in which the terminal's fonts are laid out.
pub uninterp spec fn cp437(c: char) -> u16;

/// Calls `to_cp437`, which looks the character up in its table of the code
/// page 437. The result is a function of the character alone.
#[verifier::external_body]
fn glyph_of(c: char) -> (glyph: u16)
    ensures
        glyph == cp437(c),
{
    bracket_lib::terminal::to_cp437(c)
}

/// A tile with the place on the screen where it is to be drawn, and the
/// number of its character in the terminal's font.
#[derive(Debug, Clone, Copy, PartialEq, Eq, Structural)]
pub struct Placement {
    pub x: usize,
    pub y: usize,
    pub tile: Tile,
    pub glyph: u16,
}

/// The overlays of a packet, each with the priority of the packet.
pub open spec fn with_priority(priority: u8, guis: Seq<Option<GUI>>) -> Seq<(u8, Option<GUI>)> {
    Seq::new(guis.len(), |k: int| (priority, guis[k]))
}

/// Whether one of the overlays has a frame to show.
pub open spec fn any_shown(guis: Seq<Option<GUI>>) -> bool {
    exists|k: int| 0 <= k < guis.len() && (#[trigger] guis[k]) is Some
}

/// The ids that `count` overlays get that are registered after `first`
/// others.
pub open spec fn fresh_ids(first: int, count: int) -> Seq<usize> {
    Seq::new(count as nat, |k: int| (first + k) as usize)
}

/// Whether the tile `i` of a frame, drawn from `start` on, lies on the
/// frame and within the screen. The column and the row just beyond the
/// screen's size still count as within.
pub open spec fn fits(frame: Frame, screen: (u32, u32), start: (u8, u8), i: int) -> bool {
    &&& 0 <= i < frame.dimensions.cells()
    &&& cell_point(i, frame.dimensions.width as int).0 + start.0 <= screen.0
    &&& cell_point(i, frame.dimensions.width as int).1 + start.1 <= screen.1
}

/// Where the tile `i` of a frame goes that is drawn from `start` on.
pub open spec fn placed(frame: Frame, start: (u8, u8), i: int) -> Placement {
    Placement {
        x: (cell_point(i, frame.dimensions.width as int).0 + start.0) as usize,
        y: (cell_point(i, frame.dimensions.width as int).1 + start.1) as usize,
        tile: frame.to_render[i],
        glyph: cp437(frame.to_render[i]@.glyph),
    }
}

/// Whether a renderer that takes in `packet` goes from `before` to `after`
/// and leaves `effect` to do.
pub open spec fn handled(
    before: RendererView,
    packet: RenderPacket,
    after: RendererView,
    effect: RenderEffect,
) -> bool {
    match packet {
        RenderPacket::NewFrame(frame) => {
            &&& after == (RendererView { frame, rerender: true, ..before })
            &&& effect is Nothing
        },
        RenderPacket::ChangeSize(size) => {
            &&& after == before
            &&& effect == RenderEffect::Resize(size)
        },
        RenderPacket::RegisterGUI(priority, gui) => {
            &&& after == (RendererView {
                guis: before.guis.push((priority, gui)),
                rerender: before.rerender || gui is Some,
                ..before
            })
            &&& effect == RenderEffect::Reply(
                RenderTick::RegisteredGUI(priority, before.guis.len() as usize),
            )
        },
        RenderPacket::RegisterGUIs(priority, guis) => {
            &&& after == (RendererView {
                guis: before.guis + with_priority(priority, guis@),
                rerender: before.rerender || any_shown(guis@),
                ..before
            })
            &&& effect matches RenderEffect::Reply(RenderTick::RegisteredGUIs(p, ids))
            &&& p == priority
            &&& ids@ == fresh_ids(before.guis.len() as int, guis.len() as int)
        },
        RenderPacket::UpdateGUI { id, update } => {
            &&& after == before
            &&& effect is NotImplemented
        },
    }
}

/// Whether the overlay `a` is drawn before the overlay `b`: its priority
/// is the lower one, or the two are equal and it was registered first.
pub open spec fn drawn_before(guis: Seq<(u8, Option<GUI>)>, a: int, b: int) -> bool {
    guis[a].0 < guis[b].0 || (guis[a].0 == guis[b].0 && a < b)
}

/// Whether the id `k` stands in `order`.
pub open spec fn lists(order: Seq<usize>, k: int) -> bool {
    exists|i: int| 0 <= i < order.len() && #[trigger] order[i] == k
}

/// Whether `order` lists the ids of all the overlays in the order in which
/// they are drawn.
pub open spec fn is_draw_order(guis: Seq<(u8, Option<GUI>)>, order: Seq<usize>) -> bool {
    &&& order.len() == guis.len()
    &&& forall|i: int| 0 <= i < order.len() ==> #[trigger] order[i] < guis.len()
    &&& forall|i: int, j: int|
        0 <= i < j < order.len() ==> drawn_before(
            guis,
            #[trigger] order[i] as int,
            #[trigger] order[j] as int,
        )
    &&& forall|k: int| 0 <= k < guis.len() ==> #[trigger] lists(order, k)
}

/// Whether `tiles` are the tiles of `frame`, each at its place, up to the
/// first tile that does not fit.
pub open spec fn draws(
    frame: Frame,
    screen: (u32, u32),
    start: (u8, u8),
    tiles: Seq<Placement>,
) -> bool {
    &&& tiles.len() <= frame.to_render.len()
    &&& forall|i: int| 0 <= i < tiles.len() ==> #[trigger] fits(frame, screen, start, i)
    &&& forall|i: int| 0 <= i < tiles.len() ==> #[trigger] tiles[i] == placed(frame, start, i)
    &&& tiles.len() < frame.to_render.len() ==> !fits(frame, screen, start, tiles.len() as int)
}

/// What a redraw of the screen shows: the tiles of the frame, each at its
/// place, and the ids of the overlays in the order in which they are drawn
/// over it.
pub struct Redraw {
    pub tiles: Vec<Placement>,
    pub overlays: Vec<usize>,
}

/// What is to be done after a tick of the renderer: the packets to send
/// for what the window saw, what the packet taken in leaves to do, and the
/// redraw where the screen was out of date.
pub struct TickPlan {
    pub to_send: Vec<RenderTick>,
    pub effect: RenderEffect,
    pub redraw: Option<Redraw>,
}

/// The packets that tell of what the window saw: that it is closing, and
/// the key that was pressed.
pub open spec fn window_news(quitting: bool, key: Option<VirtualKeyCode>) -> Seq<RenderTick> {
    (if quitting {
        seq![RenderTick::LoopClosed]
    } else {
        Seq::<RenderTick>::empty()
    }) + (match key {
        Some(code) => seq![RenderTick::Key(code)],
        None => Seq::<RenderTick>::empty(),
    })
}

/// Where on a screen an overlay starts whose frame has the given
/// dimensions: so many columns from the left or the right edge, so many
/// rows from the top or the bottom edge. There is no such place where a
/// distance is negative, or where the overlay would start off the screen
/// or beyond what a byte holds.
pub open spec fn overlay_origin(
    offset: (OffsetX, OffsetY),
    dimensions: RectDimension,
    screen: (u32, u32),
) -> Option<(u8, u8)> {
    let x = match offset.0 {
        OffsetX::Left(n) => n as int,
        OffsetX::Righ(n) => screen.0 - dimensions.width - n,
    };
    let y = match offset.1 {
        OffsetY::Above(n) => n as int,
        OffsetY::Below(n) => screen.1 - dimensions.height - n,
    };
    let distance_x = match offset.0 {
        OffsetX::Left(n) => n,
        OffsetX::Righ(n) => n,
    };
    let distance_y = match offset.1 {
        OffsetY::Above(n) => n,
        OffsetY::Below(n) => n,
    };
    if distance_x < 0 || distance_y < 0 || x < 0 || y < 0 || x > 255 || y > 255 {
        None
    } else {
        Some((x as u8, y as u8))
    }
}

impl GUI {
    /// Where on a screen of the given size the overlay starts whose frame
    /// has the given dimensions.
    pub fn origin(&self, dimensions: RectDimension, screen: (u32, u32)) -> (r: Option<(u8, u8)>)
        ensures
            r == overlay_origin(self.offset, dimensions, screen),
    {
        let (x, distance_x): (i64, i8) = match self.offset.0 {
            OffsetX::Left(n) => (n as i64, n),
            OffsetX::Righ(n) => (screen.0 as i64 - dimensions.width as i64 - n as i64, n),
        };
        let (y, distance_y): (i64, i8) = match self.offset.1 {
            OffsetY::Above(n) => (n as i64, n),
            OffsetY::Below(n) => (screen.1 as i64 - dimensions.height as i64 - n as i64, n),
        };
        if distance_x < 0 || distance_y < 0 || x < 0 || y < 0 || x > 255 || y > 255 {
            None
        } else {
            Some((x as u8, y as u8))
        }
    }
}

impl Renderer {
    /// A new renderer that will start with a blank screen.
    pub fn new_blank(dimensions: RectDimension) -> (r: Self)
        ensures
            r@.frame.to_render@ == Seq::<Tile>::empty(),
            r@.frame.dimensions == dimensions,
            !r@.rerender,
            r@.guis == Seq::<(u8, Option<GUI>)>::empty(),
    {
        Self { cur_frame: Frame::new(dimensions), should_rerender: false, guis: Vec::new() }
    }

    /// The frame that the renderer shows.
    pub fn frame(&self) -> (f: &Frame)
        ensures
            *f == self@.frame,
    {
        &self.cur_frame
    }

    /// Whether the screen is out of date.
    pub fn should_rerender(&self) -> (b: bool)
        ensures
            b == self@.rerender,
    {
        self.should_rerender
    }

    /// The overlays, each with its priority, in the order of their ids.
    pub fn guis(&self) -> (g: &Vec<(u8, Option<GUI>)>)
        ensures
            g@ == self@.guis,
    {
        &self.guis
    }

    /// Tracks one more overlay and returns its id. An overlay with a frame
    /// puts the screen out of date.
    pub fn register_gui(&mut self, priority: u8, gui: Option<GUI>) -> (new_id: usize)
        ensures
            new_id == old(self)@.guis.len(),
            final(self)@.guis == old(self)@.guis.push((priority, gui)),
            final(self)@.rerender == (old(self)@.rerender || gui is Some),
            final(self)@.frame == old(self)@.frame,
    {
        // register gui, sort,
        let new_id: usize = self.guis.len();
        if gui.is_some() {
            self.should_rerender = true;
        }
        self.guis.push((priority, gui));
        new_id
    }

    /// Takes in a packet: shows a new frame, asks for a resize, or tracks
    /// the overlays and answers with their ids. The update of an overlay
    /// is not done yet.
    pub fn handle_packet(&mut self, packet: RenderPacket) -> (effect: RenderEffect)
        ensures
            handled(old(self)@, packet, final(self)@, effect),
    {
        match packet {
            // a new frame has been requested
            RenderPacket::NewFrame(frame) => {
                // need to update frame
                self.should_rerender = true;
                self.cur_frame = frame;
                RenderEffect::Nothing
            },
            RenderPacket::ChangeSize(new_size) => RenderEffect::Resize(new_size),
            RenderPacket::RegisterGUI(priority, to_register) => {
                let id: usize = self.register_gui(priority, to_register);
                RenderEffect::Reply(RenderTick::RegisteredGUI(priority, id))
            },
            RenderPacket::RegisterGUIs(priority, to_register) => {
                let ghost all = to_register@;
                let ghost first = self.guis@;
                let ghost was = self.should_rerender;
                let mut ids: Vec<usize> = Vec::new();
                for gui in it: to_register
                    invariant
                        it.seq() == all,
                        self.cur_frame == old(self).cur_frame,
                        self.guis@ == first + with_priority(priority, all.take(it.index() as int)),
                        self.should_rerender == (was || any_shown(all.take(it.index() as int))),
                        ids@ == fresh_ids(first.len() as int, it.index() as int),
                {
                    let ghost k = it.index() as int;
                    let id: usize = self.register_gui(priority, gui);
                    ids.push(id);
                    proof {
                        assert(self.guis@ =~= first + with_priority(priority, all.take(k + 1)));
                        assert(ids@ =~= fresh_ids(first.len() as int, k + 1));
                        assert(all.take(k + 1)[k] == all[k]);
                        if any_shown(all.take(k)) {
                            let j = choose|j: int|
                                0 <= j < all.take(k).len() && (#[trigger] all.take(k)[j]) is Some;
                            assert(all.take(k + 1)[j] is Some);
                        }
                        if any_shown(all.take(k + 1)) && !(all[k] is Some) {
                            let j = choose|j: int|
                                0 <= j < all.take(k + 1).len() && (#[trigger] all.take(
                                    k + 1,
                                )[j]) is Some;
                            assert(all.take(k)[j] is Some);
                        }
                    }
                }
                assert(all.take(all.len() as int) =~= all);
                RenderEffect::Reply(RenderTick::RegisteredGUIs(priority, ids))
            },
            RenderPacket::UpdateGUI { id, update } => RenderEffect::NotImplemented,
        }
    }

    /// Places the tiles of a frame on a screen of the given size, from
    /// `start_point` on, and stops at the first tile that does not fit.
    pub fn render_frame(&self, frame: &Frame, screen: (u32, u32), start_point: (u8, u8)) -> (tiles:
        Vec<Placement>)
        ensures
            draws(*frame, screen, start_point, tiles@),
    {
        let mut tiles: Vec<Placement> = Vec::new();
        let mut i: usize = 0;
        let mut stopped: bool = false;
        while i < frame.to_render.len() && !stopped
            invariant
                i <= frame.to_render.len(),
                tiles.len() == i,
                forall|k: int| 0 <= k < i ==> #[trigger] fits(*frame, screen, start_point, k),
                forall|k: int| 0 <= k < i ==> #[trigger] tiles[k] == placed(*frame, start_point, k),
                stopped ==> i < frame.to_render.len() && !fits(
                    *frame,
                    screen,
                    start_point,
                    i as int,
                ),
            decreases
                    frame.to_render.len() - i + if stopped {
                        0int
                    } else {
                        1int
                    },
        {
            match frame.dimensions.index_to_point(i) {
                Ok((local_x, local_y)) => {
                    let x: usize = local_x + start_point.0 as usize;
                    let y: usize = local_y + start_point.1 as usize;
                    if x > screen.0 as usize || y > screen.1 as usize {
                        stopped = true;
                    } else {
                        let tile = frame.to_render[i];
                        tiles.push(Placement { x, y, tile, glyph: glyph_of(tile.glyph()) });
                        i = i + 1;
                    }
                },
                Err(_) => {
                    stopped = true;
                },
            }
        }
        tiles
    }

    /// The ids of the overlays in the order in which they are drawn: by
    /// priority, and among equals in the order in which they were
    /// registered.
    pub fn draw_order(&self) -> (order: Vec<usize>)
        ensures
            is_draw_order(self@.guis, order@),
    {
        let ghost guis = self.guis@;
        let mut order: Vec<usize> = Vec::new();
        let mut k: usize = 0;
        while k < self.guis.len()
            invariant
                k <= self.guis.len(),
                guis == self.guis@,
                order.len() == k,
                forall|i: int| 0 <= i < order.len() ==> #[trigger] order[i] < k,
                forall|i: int, j: int|
                    0 <= i < j < order.len() ==> drawn_before(
                        guis,
                        #[trigger] order[i] as int,
                        #[trigger] order[j] as int,
                    ),
                forall|c: int| 0 <= c < k ==> #[trigger] lists(order@, c),
            decreases self.guis.len() - k,
        {
            let priority: u8 = self.guis[k].0;
            let mut at: usize = 0;
            while at < order.len() && self.guis[order[at]].0 <= priority
                invariant
                    at <= order.len(),
                    guis == self.guis@,
                    k < guis.len(),
                    priority == guis[k as int].0,
                    forall|i: int| 0 <= i < order.len() ==> #[trigger] order[i] < k,
                    forall|i: int| 0 <= i < at ==> guis[#[trigger] order[i] as int].0 <= priority,
                decreases order.len() - at,
            {
                at = at + 1;
            }
            let ghost before = order@;
            order.insert(at, k);
            proof {
                assert forall|i: int, j: int| 0 <= i < j < order.len() implies drawn_before(
                    guis,
                    #[trigger] order[i] as int,
                    #[trigger] order[j] as int,
                ) by {
                    let bi = if i < at {
                        i
                    } else {
                        i - 1
                    };
                    let bj = if j < at {
                        j
                    } else {
                        j - 1
                    };
                    if i != at && j != at {
                        assert(order[i] == before[bi]);
                        assert(order[j] == before[bj]);
                        assert(drawn_before(guis, before[bi] as int, before[bj] as int));
                    } else if j == at {
                        assert(order[i] == before[i]);
                        assert(before[i] < k);
                    } else {
                        assert(order[j] == before[j - 1]);
                        if at < j - 1 {
                            assert(drawn_before(
                                guis,
                                before[at as int] as int,
                                before[j - 1] as int,
                            ));
                        }
                    }
                }
                assert forall|c: int| 0 <= c < k + 1 implies #[trigger] lists(order@, c) by {
                    if c < k {
                        assert(lists(before, c));
                        let i = choose|i: int| 0 <= i < before.len() && #[trigger] before[i] == c;
                        if i < at {
                            assert(order[i] == c);
                        } else {
                            assert(order[i + 1] == c);
                        }
                    } else {
                        assert(order[at as int] == c);
                    }
                }
                assert forall|i: int| 0 <= i < order.len() implies #[trigger] order[i] < k + 1 by {
                    if i < at {
                        assert(order[i] == before[i]);
                    } else if i > at {
                        assert(order[i] == before[i - 1]);
                    }
                }
            }
            k = k + 1;
        }
        order
    }

    /// One tick of the renderer's main loop: tells of the window's closing
    /// and of a pressed key, takes in the packet that has arrived, and
    /// where the screen is out of date lays out its redraw.
    pub fn tick(
        &mut self,
        quitting: bool,
        key: Option<VirtualKeyCode>,
        packet: Option<RenderPacket>,
        screen: (u32, u32),
    ) -> (plan: TickPlan)
        ensures
            plan.to_send@ == window_news(quitting, key),
            match packet {
                Some(p) => handled(
                    old(self)@,
                    p,
                    (RendererView { rerender: plan.redraw is Some, ..final(self)@ }),
                    plan.effect,
                ),
                None => {
                    &&& final(self)@.frame == old(self)@.frame
                    &&& final(self)@.guis == old(self)@.guis
                    &&& old(self)@.rerender == (plan.redraw is Some)
                    &&& plan.effect is Nothing
                },
            },
            !final(self)@.rerender,
            match plan.redraw {
                Some(redraw) => {
                    &&& draws(final(self)@.frame, screen, (0u8, 0u8), redraw.tiles@)
                    &&& is_draw_order(final(self)@.guis, redraw.overlays@)
                },
                None => true,
            },
    {
        let mut to_send: Vec<RenderTick> = Vec::new();
        if quitting {
            to_send.push(RenderTick::LoopClosed);
        }
        // a key is pressed?
        if let Some(code) = key {
            to_send.push(RenderTick::Key(code));
        }
        assert(to_send@ =~= window_news(quitting, key));
        // check for render packets
        let effect = match packet {
            Some(r_packet) => self.handle_packet(r_packet),
            None => RenderEffect::Nothing,
        };
        let ghost mid = self@;
        let redraw = if self.should_rerender {
            // render has been brought up to date
            let tiles = self.render_frame(&self.cur_frame, screen, (0, 0));
            let overlays = self.draw_order();
            self.should_rerender = false;
            Some(Redraw { tiles, overlays })
        } else {
            None
        };
        proof {
            assert((RendererView { rerender: redraw is Some, ..self@ }) == mid);
        }
        TickPlan { to_send, effect, redraw }
    }
}

} // verus!
