//! Sixel graphics, for terminals that do not know the kitty protocol.
use crate::backend::{DisplayError, OutputBackend, Surroundings};
use crate::terminal;
use crate::terminal::push_passed;
use crate::text;
use crate::text::{chars_of, is_text, trim};
use icy_sixel::{sixel_encode, EncodeOptions};
use vstd::prelude::*;

verus! {

/// Whether an image of `len` bytes can be encoded: it has pixels, four bytes each, it is at most a
/// million pixels wide, and so high, in whole bands of six rows, that the height is at most a million
/// and the bands have at most 64 mebipixels.
pub open spec fn encodable(len: nat, width: nat, height: nat) -> bool {
    let rows = (height + 5) / 6 * 6;
    &&& 0 < width <= 1_000_000
    &&& 0 < height
    &&& rows <= 1_000_000
    &&& width * rows <= 64 * 1024 * 1024
    &&& len == width * height * 4
}

/// Why an image of `len` bytes that cannot be encoded is refused: its bytes cannot be counted, its
/// size is out of range, or its data is not four bytes a pixel.
pub open spec fn refusal(len: nat, width: nat, height: nat) -> Seq<char> {
    let rows = (height + 5) / 6 * 6;
    let bytes = width * height * 4;
    if bytes > usize::MAX {
        "integer overflow"@
    } else if bytes == 0 || width > 1_000_000 || rows > 1_000_000 || width * rows > 64 * 1024 * 1024 {
        "invalid dimensions: "@ + text::decimal(width) + "x"@ + text::decimal(height)
    } else {
        "buffer size mismatch: expected "@ + text::decimal(bytes) + " bytes, got "@ + text::decimal(
            len,
        )
    }
}

/// The sixel text of an image, reduced to 256 colours. `None` where the encoder refuses the image.
pub uninterp spec fn sixel_text(rgba: Seq<u8>, width: u32, height: u32) -> Option<Seq<char>>;

/// `sixel_encode` of the `icy_sixel` crate, with its default options, turns an image into a sixel
/// sequence, which begins with `ESC P` and ends with `ESC \`. It refuses an image without pixels,
/// one whose data is not four bytes a pixel, and one beyond its limits of size, and its error says
/// which of these it is.
#[verifier::external_body]
fn encode_sixel(rgba: &[u8], width: u32, height: u32) -> (r: Result<String, String>)
    ensures
        (match r {
            Ok(s) => Some(s@),
            Err(_) => None,
        }) == sixel_text(rgba@, width, height),
        r is Ok <==> encodable(rgba@.len(), width as nat, height as nat),
        r matches Err(e) ==> e@ == refusal(rgba@.len(), width as nat, height as nat),
        r matches Ok(s) ==> text::begins_with(s@, "\x1bP"@) && text::finishes_with(
            s@,
            "\x1b\\"@,
        ),
{
    sixel_encode(rgba, width as usize, height as usize, &EncodeOptions::default())
        .map_err(|e| e.to_string())
}

/// The state of a backend.
pub struct SixelState {
    pub in_tmux: bool,
    /// Whether sequences pass through tmux, which does not know of the image then.
    pub passthrough: bool,
    /// The sixel text that was last shown.
    pub last: Option<Seq<char>>,
}

impl SixelState {
    /// Whether an image is drawn now. What passes through tmux is drawn where the cursor of the
    /// screen is, so that it is drawn only while the pane is the active one.
    pub open spec fn draws(self, around: Surroundings) -> bool {
        !self.passthrough || around.pane_active
    }

    /// What shows a sixel text at the top left corner. The screen is not cleared: the image covers
    /// the last one.
    pub open spec fn showing(self, sixel: Seq<char>) -> Seq<char> {
        "\x1b[H"@ + terminal::passed(sixel, self.passthrough)
    }

    /// Whether this state becomes `after` and `out` is written, or the image is refused, when an
    /// image is shown whose sixel text is `sixel`, or the reason for which the encoder refused it.
    pub open spec fn displayed(
        self,
        sixel: Result<Seq<char>, Seq<char>>,
        around: Surroundings,
        after: SixelState,
        out: Result<Seq<char>, Seq<char>>,
    ) -> bool {
        match sixel {
            Ok(s) => after == (SixelState { last: Some(s), ..self }) && out == Ok::<
                Seq<char>,
                Seq<char>,
            >(after.redrawing(around)),
            Err(reason) => after == self && out == Err::<Seq<char>, Seq<char>>(reason),
        }
    }

    /// What shows the last image again.
    pub open spec fn redrawing(self, around: Surroundings) -> Seq<char> {
        match self.last {
            Some(sixel) if self.draws(around) => self.showing(sixel),
            _ => seq![],
        }
    }
}

/// Shows images as sixel graphics.
pub struct SixelBackend {
    in_tmux: bool,
    passthrough: bool,
    last: Option<String>,
}

impl View for SixelBackend {
    type V = SixelState;

    closed spec fn view(&self) -> SixelState {
        SixelState {
            in_tmux: self.in_tmux,
            passthrough: self.passthrough,
            last: match self.last {
                Some(s) => Some(s@),
                None => None,
            },
        }
    }
}

/// The characters of what is written to show an image, or of the reason for which it is refused.
pub open spec fn shown_text(r: Result<String, DisplayError>) -> Result<Seq<char>, Seq<char>> {
    match r {
        Ok(s) => Ok(s@),
        Err(e) => Err(e.reason()),
    }
}

/// The sixel text of an image, or the reason for which the encoder refuses it.
pub open spec fn encoding(rgba: Seq<u8>, width: u32, height: u32) -> Result<Seq<char>, Seq<char>> {
    match sixel_text(rgba, width, height) {
        Some(s) => Ok(s),
        None => Err(refusal(rgba.len(), width as nat, height as nat)),
    }
}

/// Whether a text says that sixel graphics are known.
fn lists_sixel(features: &str) -> (r: bool)
    ensures
        r == text::occurs(features@, "sixel"@),
{
    let cs = chars_of(features);
    let word = chars_of("sixel");
    text::contains(cs.as_slice(), word.as_slice())
}

impl SixelBackend {
    /// A backend that has drawn nothing. Inside tmux, sequences pass through it, unless tmux is
    /// asked to draw the image itself and the features that it lists say that it can.
    pub fn new(tmux: bool, native_asked: bool, features: Option<&str>) -> (r: Self)
        ensures
            r@ == (SixelState {
                in_tmux: tmux,
                passthrough: tmux && !(native_asked && (match features {
                    Some(f) => text::occurs(f@, "sixel"@),
                    None => false,
                })),
                last: None,
            }),
    {
        let able = match features {
            Some(f) => lists_sixel(f),
            None => false,
        };
        SixelBackend { in_tmux: tmux, passthrough: tmux && !(native_asked && able), last: None }
    }

    /// Whether tmux has to be asked if the pane is the active one.
    pub fn asks_for_pane(&self) -> (r: bool)
        ensures
            r == self@.passthrough,
    {
        self.passthrough
    }

    /// Shows an image that was encoded as `sixel`, or refuses it for the reason that this gives. The
    /// text is kept, so that the image can be shown again.
    pub fn display_encoded(&mut self, sixel: Result<String, String>, around: &Surroundings) -> (r:
        Result<String, DisplayError>)
        ensures
            old(self)@.displayed(
                match sixel {
                    Ok(s) => Ok(s@),
                    Err(reason) => Err(reason@),
                },
                *around,
                final(self)@,
                shown_text(r),
            ),
    {
        match sixel {
            Err(reason) => Err(DisplayError::Encoding(reason)),
            Ok(s) => {
                self.last = Some(s);
                if self.passthrough && !around.pane_active {
                    return Ok(String::new());
                }
                Ok(self.shown())
            },
        }
    }

    fn push_shown(&self, out: &mut String, sixel: &str)
        ensures
            final(out)@ == old(out)@ + self@.showing(sixel@),
    {
        out.append("\x1b[H");
        push_passed(out, sixel, self.passthrough);
        assert(out@ =~= old(out)@ + self@.showing(sixel@));
    }

    fn shown(&self) -> (r: String)
        ensures
            r@ == (match self@.last {
                Some(sixel) => self@.showing(sixel),
                None => Seq::<char>::empty(),
            }),
    {
        let mut out = String::new();
        if let Some(sixel) = &self.last {
            self.push_shown(&mut out, sixel.as_str());
            assert(out@ =~= self@.showing(sixel@));
        }
        out
    }
}

/// Whether the pane is the active one, by what tmux answered. Without an answer it is taken to be.
pub fn pane_active(answer: Option<&str>) -> (r: bool)
    ensures
        r == (match answer {
            Some(a) => text::trimmed(a@) == "1"@,
            None => true,
        }),
{
    match answer {
        Some(a) => {
            let cs = chars_of(a);
            is_text(trim(cs.as_slice()), "1")
        },
        None => true,
    }
}

impl OutputBackend for SixelBackend {
    fn name(&self) -> (r: &'static str)
        ensures
            r@ == (if self@.in_tmux && self@.passthrough {
                "sixel (tmux passthrough)"@
            } else if self@.in_tmux {
                "sixel (tmux native)"@
            } else {
                "sixel"@
            }),
    {
        if self.in_tmux && self.passthrough {
            "sixel (tmux passthrough)"
        } else if self.in_tmux {
            "sixel (tmux native)"
        } else {
            "sixel"
        }
    }

    fn is_supported(&self, device_exists: bool) -> (r: bool)
        ensures
            r,
    {
        true
    }

    fn device(&self) -> (r: Option<&str>)
        ensures
            r is None,
    {
        None
    }

    fn display(&mut self, rgba: &[u8], width: u32, height: u32, around: &Surroundings) -> (r: Result<
        String,
        DisplayError,
    >)
        ensures
            r is Ok <==> encodable(rgba@.len(), width as nat, height as nat),
            old(self)@.displayed(
                encoding(rgba@, width, height),
                *around,
                final(self)@,
                shown_text(r),
            ),
            final(self)@.last matches Some(sixel) ==> r is Ok ==> text::begins_with(
                sixel,
                "\x1bP"@,
            ) && text::finishes_with(sixel, "\x1b\\"@),
    {
        let sixel = encode_sixel(rgba, width, height);
        self.display_encoded(sixel, around)
    }

    fn enter(&mut self) -> (r: String)
        ensures
            r@ == "\x1b[?1049h\x1b[?25l"@,
            final(self)@ == old(self)@,
    {
        "\x1b[?1049h\x1b[?25l".to_owned()
    }

    fn leave(&mut self) -> (r: String)
        ensures
            r@ == "\x1b[0m\x1b[?25h\x1b[?1049l"@,
            final(self)@ == old(self)@,
    {
        "\x1b[0m\x1b[?25h\x1b[?1049l".to_owned()
    }

    fn clear(&mut self) -> (r: String)
        ensures
            r@ == "\x1b[2J\x1b[H"@,
            final(self)@ == (SixelState { last: None, ..old(self)@ }),
    {
        self.last = None;
        "\x1b[2J\x1b[H".to_owned()
    }

    fn redraw(&mut self, around: &Surroundings) -> (r: String)
        ensures
            r@ == old(self)@.redrawing(*around),
            final(self)@ == old(self)@,
    {
        if self.passthrough && !around.pane_active {
            return String::new();
        }
        self.shown()
    }

    fn wants_periodic_redraw(&self) -> (r: bool)
        ensures
            r == self@.passthrough,
    {
        self.passthrough
    }
}

/// Showing the last image again writes what showing it wrote, for as long as the screen is not
/// cleared: a pane that was not active gets the image when it is active again.
pub proof fn law_redraw_repeats_the_last_image(s: SixelState, sixel: Seq<char>, around: Surroundings)
    requires
        around.pane_active,
    ensures
        (SixelState { last: Some(sixel), ..s }).redrawing(around) == s.showing(sixel),
        (SixelState { last: None, ..s }).redrawing(around) == Seq::<char>::empty(),
{
}

/// What is written to show an image: the cursor is put into the top left corner, and then the sixel
/// text reaches the terminal as it is, through tmux or not. While the pane is not the active one,
/// nothing that would pass through tmux is written.
pub proof fn law_sixel_text_reaches_the_terminal(s: SixelState, sixel: Seq<char>, around: Surroundings)
    requires
        s.last == Some(sixel),
    ensures
        s.passthrough && !around.pane_active ==> s.redrawing(around).len() == 0,
        !(s.passthrough && !around.pane_active) ==> {
            let out = s.redrawing(around);
            &&& out.take(3) == "\x1b[H"@
            &&& !s.passthrough ==> out.skip(3) == sixel
            &&& s.passthrough ==> out.subrange(3, 10) == "\x1bPtmux;"@ && terminal::unwrapped(
                out.skip(10),
            ) == Some(sixel)
        },
{
    reveal_strlit("\x1b[H");
    reveal_strlit("\x1bPtmux;");
    let out = s.redrawing(around);
    terminal::law_tmux_hands_on_what_was_wrapped(sixel);
    if !(s.passthrough && !around.pane_active) {
        assert(out.take(3) =~= "\x1b[H"@);
        if s.passthrough {
            assert(out.skip(10) =~= terminal::wrapped(sixel).skip(7));
            assert(out.subrange(3, 10) =~= terminal::wrapped(sixel).take(7));
        } else {
            assert(out.skip(3) =~= sixel);
        }
    }
}

/// An image that is shown is kept to be shown again, drawn or not, and nothing else changes. One that
/// is refused changes nothing, and the reason is handed on.
pub proof fn law_shown_image_is_kept(
    s: SixelState,
    sixel: Result<Seq<char>, Seq<char>>,
    around: Surroundings,
    after: SixelState,
    out: Result<Seq<char>, Seq<char>>,
)
    requires
        s.displayed(sixel, around, after, out),
    ensures
        after.in_tmux == s.in_tmux,
        after.passthrough == s.passthrough,
        sixel matches Ok(t) ==> after.last == Some(t) && out is Ok,
        sixel matches Err(reason) ==> after.last == s.last && out == Err::<Seq<char>, Seq<char>>(
            reason,
        ),
        out matches Ok(written) ==> written == after.redrawing(around),
{
}

} // verus!
